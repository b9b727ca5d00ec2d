//! The TGA profile: uncompressed and RLE truecolor/grayscale.
use vstd::prelude::*;
use crate::bytes::{le16, le16_bytes, push_le16, read_le16};
use super::{checked_pixels, Encoded, Error, Image, Options, Pixel};
use super::qoi::{any_alpha, has_alpha};

verus! {

pub open spec fn tga_pixel(p: Pixel, alpha: bool) -> Seq<u8> {
    seq![p.b, p.g, p.r] + if alpha { seq![p.a] } else { Seq::empty() }
}

pub open spec fn tga_pixels(px: Seq<Pixel>, alpha: bool) -> Seq<u8>
    decreases px.len(),
{
    if px.len() == 0 {
        Seq::empty()
    } else {
        tga_pixels(px.drop_last(), alpha) + tga_pixel(px.last(), alpha)
    }
}

/// Length of the run of pixels equal to `row[x]` starting at `x`, at most 128.
pub open spec fn run_len(row: Seq<Pixel>, x: int, k: int) -> int
    decreases 128 - k,
{
    if k >= 128 || x + k >= row.len() || row[x + k] != row[x] {
        k
    } else {
        run_len(row, x, k + 1)
    }
}

/// Where a raw packet starting at `start` ends, scanning from `x`.
pub open spec fn raw_end(row: Seq<Pixel>, start: int, x: int) -> int
    decreases row.len() - x,
{
    if x >= row.len() || x - start >= 128 {
        x
    } else if x + 1 < row.len() && row[x + 1] == row[x] {
        x
    } else {
        raw_end(row, start, x + 1)
    }
}

/// The RLE packets for `row[x..]`.
pub open spec fn rle_from(row: Seq<Pixel>, x: int, alpha: bool) -> Seq<u8>
    decreases row.len() - x,
{
    if x >= row.len() || x < 0 {
        Seq::empty()
    } else {
        let run = if run_len(row, x, 1) >= 1 { run_len(row, x, 1) } else { 1 };
        if run >= 2 {
            let next = if x + run > row.len() { row.len() as int } else { x + run };
            seq![(0x80 + run - 1) as u8] + tga_pixel(row[x], alpha) + rle_from(row, next, alpha)
        } else {
            let e = if raw_end(row, x, x + 1) > x { raw_end(row, x, x + 1) } else { x + 1 };
            let end = if e > row.len() { row.len() as int } else { e };
            seq![(end - x - 1) as u8] + tga_pixels(row.subrange(x, end), alpha) + rle_from(
                row,
                end,
                alpha,
            )
        }
    }
}

/// The RLE packets of rows `0..n` of a `w`-wide grid.
pub open spec fn rle_rows(px: Seq<Pixel>, w: int, alpha: bool, n: nat) -> Seq<u8>
    decreases n,
{
    if n == 0 {
        Seq::empty()
    } else {
        rle_rows(px, w, alpha, (n - 1) as nat) + rle_from(
            px.subrange((n - 1) * w, n * w),
            0,
            alpha,
        )
    }
}

pub open spec fn tga_footer() -> Seq<u8> {
    Seq::new(8, |_i: int| 0u8) + seq![
        0x54u8, 0x52, 0x55, 0x45, 0x56, 0x49, 0x53, 0x49, 0x4f, 0x4e, 0x2d, 0x58, 0x46, 0x49, 0x4c,
        0x45, 0x2e, 0x00,
    ]
}

/// The TGA file for `img` (top-left origin, optional RLE).
pub open spec fn tga_file(img: Image, rle: bool) -> Seq<u8> {
    let alpha = has_alpha(img.pixels@);
    seq![0u8, 0u8, if rle { 10u8 } else { 2u8 }] + Seq::new(9, |_i: int| 0u8) + le16_bytes(
        img.width as int,
    ) + le16_bytes(img.height as int) + seq![
        if alpha { 32u8 } else { 24u8 },
        if alpha { 0x28u8 } else { 0x20u8 },
    ] + (if rle {
        rle_rows(img.pixels@, img.width as int, alpha, img.height as nat)
    } else {
        tga_pixels(img.pixels@, alpha)
    }) + tga_footer()
}

fn push_tga_pixel(out: &mut Vec<u8>, p: Pixel, alpha: bool)
    ensures
        final(out)@ == old(out)@ + tga_pixel(p, alpha),
{
    out.push(p.b);
    out.push(p.g);
    out.push(p.r);
    if alpha {
        out.push(p.a);
    }
    assert(out@ =~= old(out)@ + tga_pixel(p, alpha));
}

fn push_tga_pixels(out: &mut Vec<u8>, px: &Vec<Pixel>, start: usize, end: usize, alpha: bool)
    requires
        start <= end <= px@.len(),
    ensures
        final(out)@ == old(out)@ + tga_pixels(px@.subrange(start as int, end as int), alpha),
{
    let mut k: usize = start;
    while k < end
        invariant
            start <= k <= end,
            end <= px@.len(),
            out@ == old(out)@ + tga_pixels(px@.subrange(start as int, k as int), alpha),
        decreases end - k,
    {
        push_tga_pixel(out, px[k], alpha);
        assert(px@.subrange(start as int, k + 1).drop_last() =~= px@.subrange(start as int, k as int));
        k = k + 1;
    }
}

fn run_length(px: &Vec<Pixel>, base: usize, len: usize, x: usize) -> (run: usize)
    requires
        base + len <= px@.len(),
        x < len,
    ensures
        run == run_len(px@.subrange(base as int, base + len), x as int, 1),
        1 <= run <= 128,
        x + run <= len,
{
    let ghost row = px@.subrange(base as int, base + len);
    let _n = px.len();
    let mut run: usize = 1;
    while run < 128 && x + run < len && px[base + x + run] == px[base + x]
        invariant
            _n == px@.len(),
            1 <= run <= 128,
            x < len,
            base + len <= px@.len(),
            row == px@.subrange(base as int, base + len),
            x + run <= len,
            run_len(row, x as int, 1) == run_len(row, x as int, run as int),
        decreases 128 - run,
    {
        run = run + 1;
    }
    run
}

fn raw_packet_end(px: &Vec<Pixel>, base: usize, len: usize, start: usize) -> (end: usize)
    requires
        base + len <= px@.len(),
        start < len,
    ensures
        end == raw_end(px@.subrange(base as int, base + len), start as int, start + 1),
        start < end <= len,
        end - start <= 128,
{
    let ghost row = px@.subrange(base as int, base + len);
    let _n = px.len();
    let mut x = start + 1;
    let mut stop = false;
    while !stop && x < len && x - start < 128
        invariant
            _n == px@.len(),
            start < x <= len,
            base + len <= px@.len(),
            row == px@.subrange(base as int, base + len),
            x - start <= 128,
            raw_end(row, start as int, start + 1) == raw_end(row, start as int, x as int),
            stop ==> x + 1 < len && row[x + 1] == row[x as int] && x < len && x - start < 128,
        decreases len - x, if stop { 0int } else { 1int },
    {
        if x + 1 < len && px[base + x + 1] == px[base + x] {
            assert(row[x + 1] == row[x as int]);
            stop = true;
        } else {
            assert(!(x + 1 < len && row[x + 1] == row[x as int]));
            x = x + 1;
        }
    }
    x
}

/// Appends the RLE packets of `px[base..base + len]`.
fn push_rle_row(out: &mut Vec<u8>, px: &Vec<Pixel>, base: usize, len: usize, alpha: bool)
    requires
        base + len <= px@.len(),
    ensures
        final(out)@ == old(out)@ + rle_from(px@.subrange(base as int, base + len), 0, alpha),
{
    let ghost row = px@.subrange(base as int, base + len);
    let _n = px.len();
    let mut x: usize = 0;
    loop
        invariant_except_break
            _n == px@.len(),
            x <= len,
            base + len <= px@.len(),
            row == px@.subrange(base as int, base + len),
            out@ + rle_from(row, x as int, alpha) == old(out)@ + rle_from(row, 0, alpha),
        ensures
            out@ == old(out)@ + rle_from(row, 0, alpha),
        decreases len - x,
    {
        if x >= len {
            assert(out@ =~= old(out)@ + rle_from(row, 0, alpha));
            break;
        }
        let run = run_length(px, base, len, x);
        let ghost before = out@;
        let ghost x0 = x as int;
        if run >= 2 {
            out.push((0x80 + run - 1) as u8);
            push_tga_pixel(out, px[base + x], alpha);
            x = x + run;
        } else {
            let end = raw_packet_end(px, base, len, x);
            out.push((end - x - 1) as u8);
            push_tga_pixels(out, px, base + x, base + end, alpha);
            assert(px@.subrange(base + x, base + end) =~= row.subrange(x as int, end as int));
            x = end;
        }
        assert(before + rle_from(row, x0, alpha) =~= out@ + rle_from(row, x as int, alpha));
    }
}

/// Encodes `image` as TGA (RLE when `rle`).
pub fn encode_tga(image: &Image, rle: bool) -> (r: Result<Encoded, Error>)
    requires
        image.pixels@.len() == image.width * image.height,
    ensures
        r is Ok <==> image.width <= 65535 && image.height <= 65535,
        r matches Ok(e) ==> e.bytes@ == tga_file(*image, rle),
{
    if image.width > 65535 {
        return Err(Error::Unsupported("TGA width exceeds 65535"));
    }
    if image.height > 65535 {
        return Err(Error::Unsupported("TGA height exceeds 65535"));
    }
    let alpha = any_alpha(&image.pixels);
    let mut out: Vec<u8> = Vec::new();
    out.push(0u8);
    out.push(0u8);
    out.push(if rle { 10u8 } else { 2u8 });
    crate::bytes::push_zeros(&mut out, 9);
    push_le16(&mut out, image.width as u16);
    push_le16(&mut out, image.height as u16);
    out.push(if alpha { 32u8 } else { 24u8 });
    out.push(if alpha { 0x28u8 } else { 0x20u8 });
    let ghost head = out@;
    if !rle {
        push_tga_pixels(&mut out, &image.pixels, 0, image.pixels.len(), alpha);
        assert(image.pixels@.subrange(0, image.pixels@.len() as int) =~= image.pixels@);
    } else {
        let w = image.width as usize;
        let _n = image.pixels.len();
        let mut y: usize = 0;
        while y < image.height as usize
            invariant
                y <= image.height,
                w == image.width,
                _n == image.pixels@.len(),
                image.pixels@.len() == image.width * image.height,
                out@ == head + rle_rows(image.pixels@, w as int, alpha, y as nat),
            decreases image.height - y,
        {
            assert(y * w + w <= image.width as int * image.height as int) by (nonlinear_arith)
                requires
                    y < image.height,
                    w == image.width,
            ;
            push_rle_row(&mut out, &image.pixels, y * w, w, alpha);
            assert((y + 1) * w == y * w + w) by (nonlinear_arith);
            y = y + 1;
        }
    }
    let ghost body = out@;
    crate::bytes::push_zeros(&mut out, 8);
    let footer: [u8; 18] = [0x54, 0x52, 0x55, 0x45, 0x56, 0x49, 0x53, 0x49, 0x4f, 0x4e, 0x2d, 0x58, 0x46, 0x49, 0x4c, 0x45, 0x2e, 0x00];
    out.extend_from_slice(&footer);
    assert(out@ =~= tga_file(*image, rle));
    Ok(Encoded { bytes: out, channels: if alpha { 4 } else { 3 }, alpha_action: "preserved" })
}

/// The pixel a stored sample of `n` bytes at `pos` holds.
pub open spec fn sample_pixel(b: Seq<u8>, pos: int, n: int, truecolor: bool) -> Pixel {
    if truecolor {
        Pixel { r: b[pos + 2], g: b[pos + 1], b: b[pos], a: if n == 4 { b[pos + 3] } else { 255u8 } }
    } else {
        Pixel { r: b[pos], g: b[pos], b: b[pos], a: if n == 2 { b[pos + 1] } else { 255u8 } }
    }
}

fn decode_sample(bytes: &[u8], pos: usize, n: usize, truecolor: bool) -> (p: Pixel)
    requires
        pos + n <= bytes@.len(),
        truecolor ==> (n == 3 || n == 4),
        !truecolor ==> (n == 1 || n == 2),
    ensures
        p == sample_pixel(bytes@, pos as int, n as int, truecolor),
{
    let _n = bytes.len();
    if truecolor {
        Pixel { r: bytes[pos + 2], g: bytes[pos + 1], b: bytes[pos], a: if n == 4 { bytes[pos + 3] } else { 255u8 } }
    } else {
        Pixel { r: bytes[pos], g: bytes[pos], b: bytes[pos], a: if n == 2 { bytes[pos + 1] } else { 255u8 } }
    }
}

/// The pixels coded by the RLE packets from `pos` for `remaining` pixels of
/// `n` bytes each, in stored order (as far as the packets are whole).
pub open spec fn rle_pixels(b: Seq<u8>, pos: int, remaining: int, n: int, truecolor: bool) -> Seq<Pixel>
    decreases remaining,
{
    if remaining <= 0 || pos < 0 || pos >= b.len() {
        Seq::empty()
    } else {
        let packet = b[pos];
        let length = packet % 128 + 1;
        if length > remaining {
            Seq::empty()
        } else if packet >= 128 {
            Seq::new(length as nat, |j: int| sample_pixel(b, pos + 1, n, truecolor)) + rle_pixels(
                b,
                pos + 1 + n,
                remaining - length,
                n,
                truecolor,
            )
        } else {
            Seq::new(length as nat, |j: int| sample_pixel(b, pos + 1 + j * n, n, truecolor))
                + rle_pixels(b, pos + 1 + length * n, remaining - length, n, truecolor)
        }
    }
}

/// The pixels of the TGA `b` in stored order.
pub open spec fn stored_pixels(b: Seq<u8>) -> Seq<Pixel> {
    let truecolor = b[2] == 2 || b[2] == 10;
    let count = le16(b, 12) * le16(b, 14);
    let n = b[16] / 8;
    let start = 18 + b[0];
    if b[2] == 2 || b[2] == 3 {
        Seq::new(count as nat, |k: int| sample_pixel(b, start + k * n, n as int, truecolor))
    } else {
        rle_pixels(b, start, count, n as int, truecolor)
    }
}

/// The stored index of the pixel at index `i` of a top-down, left-to-right
/// `w` by `h` image, when rows are stored from the top (`top`) or the
/// bottom and columns from the right (`right`) or the left; the same map
/// takes a stored index to its place in the image.
pub open spec fn tga_source(i: int, w: int, h: int, top: bool, right: bool) -> int {
    let y = i / w;
    let x = i % w;
    let fy = if top { y } else { h - 1 - y };
    let fx = if right { w - 1 - x } else { x };
    fy * w + fx
}

proof fn lemma_tga_source(i: int, w: int, h: int, top: bool, right: bool)
    requires
        0 <= i < w * h,
        w >= 1,
    ensures
        0 <= tga_source(i, w, h, top, right) < w * h,
        tga_source(tga_source(i, w, h, top, right), w, h, top, right) == i,
{
    let y = i / w;
    let x = i % w;
    vstd::arithmetic::div_mod::lemma_fundamental_div_mod(i, w);
    assert(0 <= x < w);
    assert(0 <= y < h) by (nonlinear_arith)
        requires
            i == w * y + x,
            0 <= x < w,
            0 <= i < w * h,
            w >= 1,
    ;
    let fy = if top { y } else { h - 1 - y };
    let fx = if right { w - 1 - x } else { x };
    let s = fy * w + fx;
    assert(0 <= s < w * h) by (nonlinear_arith)
        requires
            0 <= fy < h,
            0 <= fx < w,
            s == fy * w + fx,
    ;
    vstd::arithmetic::div_mod::lemma_fundamental_div_mod_converse(s, w, fy, fx);
    assert(i == y * w + x) by (nonlinear_arith)
        requires
            i == w * y + x,
    ;
}

/// Where the RLE packets from `pos` that code `remaining` pixels of `n`
/// bytes end, or `None` when a packet is cut short or runs past the image.
pub open spec fn rle_end(b: Seq<u8>, pos: int, remaining: int, n: int) -> Option<int>
    decreases remaining,
{
    if remaining <= 0 {
        Some(pos)
    } else if pos < 0 || pos >= b.len() {
        None
    } else {
        let packet = b[pos];
        let length = packet % 128 + 1;
        if length > remaining {
            None
        } else if packet >= 128 {
            if n > b.len() - (pos + 1) {
                None
            } else {
                rle_end(b, pos + 1 + n, remaining - length, n)
            }
        } else if length * n > b.len() - (pos + 1) {
            None
        } else {
            rle_end(b, pos + 1 + length * n, remaining - length, n)
        }
    }
}

/// The TGA 2.0 footer signature, `TRUEVISION-XFILE.` and a NUL.
pub open spec fn footer_signature() -> Seq<u8> {
    seq![0x54u8, 0x52, 0x55, 0x45, 0x56, 0x49, 0x53, 0x49, 0x4f, 0x4e, 0x2d, 0x58, 0x46, 0x49, 0x4c, 0x45, 0x2e, 0x00]
}

/// Whether `b` is a TGA that decodes: an uncolour-mapped raw or RLE
/// truecolour (24/32-bit) or greyscale (8/16-bit) image of at most
/// `max_pixels` pixels whose image ID and pixel data are whole, followed,
/// when `strict`, by nothing or by a TGA 2.0 footer.
pub open spec fn tga_accepts(b: Seq<u8>, max_pixels: int, strict: bool) -> bool {
    let len = b.len() as int;
    let image_type = b[2];
    let truecolor = image_type == 2 || image_type == 10;
    let depth = b[16];
    let w = le16(b, 12);
    let h = le16(b, 14);
    let count = w * h;
    let n = depth / 8;
    let start = 18 + b[0];
    let end: Option<int> = if image_type == 2 || image_type == 3 {
        if count * n > usize::MAX || count * n > len - start {
            None
        } else {
            Some(start + count * n)
        }
    } else {
        rle_end(b, start, count, n as int)
    };
    &&& len >= 18
    &&& b[1] == 0
    &&& (image_type == 2 || image_type == 3 || image_type == 10 || image_type == 11)
    &&& (truecolor ==> (depth == 24 || depth == 32))
    &&& (!truecolor ==> (depth == 8 || depth == 16))
    &&& 1 <= w && 1 <= h && count <= max_pixels && count <= usize::MAX
    &&& b[0] <= len - 18
    &&& end matches Some(e) && (strict && e < len ==> (len - e >= 26 && b.subrange(len - 18, len) == footer_signature()))
}

/// Decodes an uncompressed or RLE truecolor/grayscale TGA.
pub fn decode_tga(bytes: &[u8], options: &Options) -> (r: Result<Image, Error>)
    ensures
        r is Ok <==> tga_accepts(bytes@, options.max_pixels as int, options.strict_trailing_data),
        r matches Ok(img) ==> {
            &&& bytes@.len() >= 18
            &&& img.width == le16(bytes@, 12)
            &&& img.height == le16(bytes@, 14)
            &&& img.pixels@.len() == img.width * img.height
            &&& img.width * img.height <= options.max_pixels
            &&& bytes@[1] == 0
            &&& (bytes@[2] == 2 || bytes@[2] == 3 || bytes@[2] == 10 || bytes@[2] == 11)
            &&& forall|i: int|
                0 <= i < img.width * img.height ==> #[trigger] img.pixels@[i] == stored_pixels(
                    bytes@,
                )[tga_source(
                    i,
                    img.width as int,
                    img.height as int,
                    bytes@[17] & 0x20 != 0,
                    bytes@[17] & 0x10 != 0,
                )]
        },
{
    let len = bytes.len();
    if len < 18 {
        return Err(Error::Truncated("TGA header"));
    }
    let id_length = bytes[0] as usize;
    if bytes[1] != 0 {
        return Err(Error::Unsupported("color-mapped TGA"));
    }
    let image_type = bytes[2];
    if !(image_type == 2 || image_type == 3 || image_type == 10 || image_type == 11) {
        return Err(Error::Unsupported("TGA image type outside raw/RLE truecolor/grayscale"));
    }
    let width = read_le16(bytes, 12) as u32;
    let height = read_le16(bytes, 14) as u32;
    let depth = bytes[16];
    let truecolor = image_type == 2 || image_type == 10;
    if (truecolor && !(depth == 24 || depth == 32)) || (!truecolor && !(depth == 8 || depth == 16)) {
        return Err(Error::Unsupported("TGA pixel depth"));
    }
    let count = match checked_pixels(width, height, options) {
        Ok(c) => c,
        Err(e) => return Err(e),
    };
    let n = (depth / 8) as usize;
    let mut pos: usize = 18 + id_length;
    if id_length > len - 18 {
        return Err(Error::Truncated("TGA image ID"));
    }
    let mut file_pixels: Vec<Pixel> = Vec::new();
    let ghost start = pos as int;
    if image_type == 2 || image_type == 3 {
        proof {
            super::bmp::lemma_div_bound(count as int, usize::MAX as int, n as int);
        }
        if count > usize::MAX / n {
            return Err(Error::IntegerOverflow("TGA raster"));
        }
        assert(count * n <= usize::MAX) by (nonlinear_arith)
            requires
                count <= usize::MAX as int / n as int,
                n >= 1,
        ;
        let raw_len = count * n;
        if raw_len > len - pos {
            return Err(Error::Truncated("TGA raster"));
        }
        let mut k: usize = 0;
        while k < count
            invariant
                k <= count,
                len == bytes@.len(),
                pos + count * n <= len,
                file_pixels@.len() == k,
                truecolor ==> (n == 3 || n == 4),
                !truecolor ==> (n == 1 || n == 2),
                forall|j: int| 0 <= j < k ==> #[trigger] file_pixels@[j] == sample_pixel(bytes@, pos + j * n, n as int, truecolor),
            decreases count - k,
        {
            assert(pos + k * n + n <= pos + count * n) by (nonlinear_arith)
                requires
                    k < count,
            ;
            file_pixels.push(decode_sample(bytes, pos + k * n, n, truecolor));
            k = k + 1;
        }
        assert(file_pixels@ =~= stored_pixels(bytes@));
        pos = pos + raw_len;
    } else {
        assert(tga_accepts(bytes@, options.max_pixels as int, options.strict_trailing_data) ==> rle_end(
            bytes@,
            start,
            count as int,
            n as int,
        ) is Some);
        while file_pixels.len() < count
            invariant
                file_pixels@.len() <= count,
                len == bytes@.len(),
                pos <= len,
                truecolor ==> (n == 3 || n == 4),
                !truecolor ==> (n == 1 || n == 2),
                rle_end(bytes@, start, count as int, n as int) == rle_end(bytes@, pos as int, count - file_pixels@.len(), n as int),
                rle_pixels(bytes@, start, count as int, n as int, truecolor) == file_pixels@ + rle_pixels(
                    bytes@,
                    pos as int,
                    count - file_pixels@.len(),
                    n as int,
                    truecolor,
                ),
                tga_accepts(bytes@, options.max_pixels as int, options.strict_trailing_data) ==> rle_end(
                    bytes@,
                    start,
                    count as int,
                    n as int,
                ) is Some,
            decreases count - file_pixels@.len(),
        {
            if pos >= len {
                return Err(Error::Truncated("TGA RLE packet"));
            }
            let packet = bytes[pos];
            pos = pos + 1;
            let length = (packet % 128) as usize + 1;
            let ghost start_len = file_pixels@.len();
            let ghost fp0 = file_pixels@;
            let ghost p0 = pos as int;
            if length > count - file_pixels.len() {
                return Err(Error::InvalidHeader("TGA RLE packet exceeds image dimensions"));
            }
            if packet >= 128 {
                if n > len - pos {
                    return Err(Error::Truncated("TGA RLE sample"));
                }
                let p = decode_sample(bytes, pos, n, truecolor);
                pos = pos + n;
                let mut k: usize = 0;
                while k < length
                    invariant
                        k <= length,
                        file_pixels@.len() + length - k <= count,
                        file_pixels@.len() == start_len + k,
                        file_pixels@ == fp0 + Seq::new(k as nat, |j: int| p),
                    decreases length - k,
                {
                    file_pixels.push(p);
                    k = k + 1;
                    assert(file_pixels@ =~= fp0 + Seq::new(k as nat, |j: int| p));
                }
                assert(Seq::new(length as nat, |j: int| p) =~= Seq::new(
                    length as nat,
                    |j: int| sample_pixel(bytes@, p0, n as int, truecolor),
                ));
            } else {
                assert(length * n <= 128 * 4) by (nonlinear_arith)
                    requires
                        length <= 128,
                        n <= 4,
                ;
                let raw_bytes = length * n;
                if raw_bytes > len - pos {
                    return Err(Error::Truncated("TGA raw packet"));
                }
                let mut k: usize = 0;
                while k < length
                    invariant
                        k <= length,
                        len == bytes@.len(),
                        pos + length * n <= len,
                        file_pixels@.len() + length - k <= count,
                        file_pixels@.len() == start_len + k,
                        truecolor ==> (n == 3 || n == 4),
                        !truecolor ==> (n == 1 || n == 2),
                        pos == p0,
                        file_pixels@ == fp0 + Seq::new(
                            k as nat,
                            |j: int| sample_pixel(bytes@, p0 + j * n, n as int, truecolor),
                        ),
                    decreases length - k,
                {
                    assert(pos + k * n + n <= pos + length * n) by (nonlinear_arith)
                        requires
                            k < length,
                    ;
                    file_pixels.push(decode_sample(bytes, pos + k * n, n, truecolor));
                    k = k + 1;
                    assert(file_pixels@ =~= fp0 + Seq::new(
                        k as nat,
                        |j: int| sample_pixel(bytes@, p0 + j * n, n as int, truecolor),
                    ));
                }
                pos = pos + raw_bytes;
            }
            proof {
                let a = file_pixels@.subrange(start_len as int, file_pixels@.len() as int);
                let t = rle_pixels(bytes@, pos as int, count - file_pixels@.len(), n as int, truecolor);
                assert(a =~= if packet >= 128 {
                    Seq::new(length as nat, |j: int| sample_pixel(bytes@, p0, n as int, truecolor))
                } else {
                    Seq::new(length as nat, |j: int| sample_pixel(bytes@, p0 + j * n, n as int, truecolor))
                });
                assert(rle_pixels(bytes@, p0 - 1, count - start_len, n as int, truecolor) == a + t);
                assert(file_pixels@ =~= fp0 + a);
                assert(file_pixels@ + t =~= fp0 + (a + t));
            }
        }
        assert(file_pixels@ =~= stored_pixels(bytes@));
    }
    let top = bytes[17] & 0x20 != 0;
    let right = bytes[17] & 0x10 != 0;
    let w = width as usize;
    let h = height as usize;
    let mut pixels: Vec<Pixel> = Vec::new();
    let mut i: usize = 0;
    while i < count
        invariant
            i <= count,
            pixels@.len() == i,
        decreases count - i,
    {
        pixels.push(Pixel { r: 0, g: 0, b: 0, a: 0 });
        i = i + 1;
    }
    let mut index: usize = 0;
    while index < count
        invariant
            index <= count,
            count == w * h,
            w >= 1,
            pixels@.len() == count,
            file_pixels@.len() == count,
            forall|i: int|
                0 <= i < count && 0 <= tga_source(i, w as int, h as int, top, right) < index ==> #[trigger] pixels@[i]
                    == file_pixels@[tga_source(i, w as int, h as int, top, right)],
        decreases count - index,
    {
        let file_y = index / w;
        let file_x = index % w;
        assert(file_y < h) by (nonlinear_arith)
            requires
                index < w * h,
                file_y == index / w,
                w >= 1,
        ;
        let y = if top { file_y } else { h - 1 - file_y };
        let x = if right { w - 1 - file_x } else { file_x };
        assert(y * w + x < w * h) by (nonlinear_arith)
            requires
                y < h,
                x < w,
        ;
        let ghost before = pixels@;
        proof {
            vstd::arithmetic::div_mod::lemma_fundamental_div_mod(index as int, w as int);
            assert(index as int == file_y * w + file_x) by (nonlinear_arith)
                requires
                    index as int == w * (index as int / w as int) + index as int % w as int,
                    file_y == index / w,
                    file_x == index % w,
            ;
            lemma_tga_source(index as int, w as int, h as int, top, right);
            assert(tga_source(index as int, w as int, h as int, top, right) == y * w + x);
        }
        pixels.set(y * w + x, file_pixels[index]);
        proof {
            assert forall|i: int|
                0 <= i < count && 0 <= tga_source(i, w as int, h as int, top, right) < index + 1 implies #[trigger] pixels@[i]
                    == file_pixels@[tga_source(i, w as int, h as int, top, right)] by {
                lemma_tga_source(i, w as int, h as int, top, right);
                if i != y * w + x {
                    assert(pixels@[i] == before[i]);
                }
            }
        }
        index = index + 1;
    }
    proof {
        assert forall|i: int| 0 <= i < count implies #[trigger] pixels@[i] == file_pixels@[tga_source(
            i,
            w as int,
            h as int,
            top,
            right,
        )] by {
            lemma_tga_source(i, w as int, h as int, top, right);
        }
    }
    if options.strict_trailing_data && pos < len {
        let tail = len - pos;
        let footer: [u8; 18] = [0x54, 0x52, 0x55, 0x45, 0x56, 0x49, 0x53, 0x49, 0x4f, 0x4e, 0x2d, 0x58, 0x46, 0x49, 0x4c, 0x45, 0x2e, 0x00];
        assert(footer@ =~= footer_signature());
        let mut valid_footer = tail >= 26;
        if valid_footer {
            let mut k: usize = 0;
            while k < 18
                invariant
                    k <= 18,
                    len == bytes@.len(),
                    len >= 18,
                    footer@ == footer_signature(),
                    valid_footer <==> forall|j: int| 0 <= j < k ==> bytes@[len - 18 + j] == footer_signature()[j],
                decreases 18 - k,
            {
                if bytes[len - 18 + k] != footer[k] {
                    valid_footer = false;
                }
                k = k + 1;
            }
            proof {
                let t = bytes@.subrange(len - 18, len as int);
                if valid_footer {
                    assert(t =~= footer_signature());
                }
                if t == footer_signature() {
                    assert forall|j: int| 0 <= j < 18 implies bytes@[len - 18 + j] == footer_signature()[j] by {
                        assert(t[j] == bytes@[len - 18 + j]);
                    }
                }
            }
        }
        if !valid_footer {
            return Err(Error::TrailingData { bytes: len - pos });
        }
    }
    Ok(
        Image {
            width,
            height,
            source_channels: if depth == 16 || depth == 32 {
                4
            } else {
                3
            },
            pixels,
            warnings: Vec::new(),
        },
    )
}

/// Pixel `k` of `px` fills bytes `n * k .. n * k + n` of `tga_pixels`, `n`
/// being 4 with alpha and 3 without.
pub proof fn lemma_tga_pixels(px: Seq<Pixel>, alpha: bool)
    ensures
        tga_pixels(px, alpha).len() == px.len() * (if alpha { 4int } else { 3int }),
        forall|k: int|
            0 <= k < px.len() ==> tga_pixels(px, alpha).subrange(
                k * (if alpha { 4int } else { 3int }),
                k * (if alpha { 4int } else { 3int }) + (if alpha { 4int } else { 3int }),
            ) == tga_pixel(#[trigger] px[k], alpha),
    decreases px.len(),
{
    let n = if alpha { 4int } else { 3int };
    if px.len() > 0 {
        let init = px.drop_last();
        lemma_tga_pixels(init, alpha);
        let s = tga_pixels(px, alpha);
        let t = tga_pixels(init, alpha);
        assert(s == t + tga_pixel(px.last(), alpha));
        assert(t.len() == (px.len() - 1) * n);
        assert((px.len() - 1) * n + n == px.len() * n) by (nonlinear_arith);
        assert forall|k: int| 0 <= k < px.len() implies s.subrange(k * n, k * n + n) == tga_pixel(
            #[trigger] px[k],
            alpha,
        ) by {
            if k < px.len() - 1 {
                assert(k * n + n <= (px.len() - 1) * n) by (nonlinear_arith)
                    requires
                        k < px.len() - 1,
                        n > 0,
                ;
                assert(init[k] == px[k]);
                assert(s.subrange(k * n, k * n + n) =~= t.subrange(k * n, k * n + n));
            } else {
                assert(k * n == t.len());
                assert(s.subrange(k * n, k * n + n) =~= tga_pixel(px.last(), alpha));
            }
        }
    } else {
        assert(px.len() * n == 0) by (nonlinear_arith)
            requires
                px.len() == 0,
        ;
    }
}

/// Both descriptor bytes the encoder writes mark a top-left origin.
proof fn lemma_tga_origin_bits()
    ensures
        (0x28u8 & 0x20u8) != 0u8 && (0x20u8 & 0x20u8) != 0u8 && (0x28u8 & 0x10u8) == 0u8 && (0x20u8
            & 0x10u8) == 0u8,
{
    assert((0x28u8 & 0x20u8) != 0u8 && (0x20u8 & 0x20u8) != 0u8 && (0x28u8 & 0x10u8) == 0u8 && (0x20u8
        & 0x10u8) == 0u8) by (bit_vector);
}

/// A TGA file written without RLE is accepted by the decoder's checks, with
/// the image's width and height, and its stored pixels, placed as its
/// origin bits say, are the image's pixels: decoding gives the image back.
pub proof fn lemma_tga_raw_round_trip(img: Image, max_pixels: int, strict: bool)
    requires
        1 <= img.width <= 65535,
        1 <= img.height <= 65535,
        img.pixels@.len() == img.width * img.height,
        img.width * img.height <= max_pixels,
        img.width * img.height * 4 <= usize::MAX,
    ensures
        tga_accepts(tga_file(img, false), max_pixels, strict),
        le16(tga_file(img, false), 12) == img.width,
        le16(tga_file(img, false), 14) == img.height,
        forall|i: int|
            0 <= i < img.width * img.height ==> stored_pixels(tga_file(img, false))[tga_source(
                i,
                img.width as int,
                img.height as int,
                tga_file(img, false)[17] & 0x20 != 0,
                tga_file(img, false)[17] & 0x10 != 0,
            )] == #[trigger] img.pixels@[i],
{
    let px = img.pixels@;
    let w = img.width as int;
    let h = img.height as int;
    let count = w * h;
    let alpha = has_alpha(px);
    let n = if alpha { 4int } else { 3int };
    let b = tga_file(img, false);
    let head = seq![0u8, 0u8, 2u8] + Seq::new(9, |_i: int| 0u8) + le16_bytes(w) + le16_bytes(h) + seq![
        if alpha { 32u8 } else { 24u8 },
        if alpha { 0x28u8 } else { 0x20u8 },
    ];
    let body = tga_pixels(px, alpha);
    lemma_tga_pixels(px, alpha);
    assert(b == head + body + tga_footer());
    assert(head.len() == 18);
    assert(body.len() == count * n);
    let len = b.len() as int;
    assert(len == 18 + count * n + 26);
    assert(b[0] == 0 && b[1] == 0 && b[2] == 2);
    assert(b[12] == head[12] && b[13] == head[13] && b[14] == head[14] && b[15] == head[15]);
    assert(le16(b, 12) == w);
    assert(le16(b, 14) == h);
    assert(b[16] == head[16] && b[17] == head[17]);
    lemma_tga_origin_bits();
    assert(b[16] / 8 == n);
    assert(count * n <= usize::MAX) by (nonlinear_arith)
        requires
            count * 4 <= usize::MAX,
            n <= 4,
            count >= 0,
    ;
    assert(count >= 1) by (nonlinear_arith)
        requires
            count == w * h,
            w >= 1,
            h >= 1,
    ;
    assert(b.subrange(len - 18, len) =~= footer_signature());
    assert(tga_accepts(b, max_pixels, strict));
    assert forall|i: int| 0 <= i < count implies stored_pixels(b)[tga_source(i, w, h, b[17] & 0x20 != 0, b[17]
        & 0x10 != 0)] == #[trigger] px[i] by {
        vstd::arithmetic::div_mod::lemma_fundamental_div_mod(i, w);
        assert(tga_source(i, w, h, true, false) == i) by (nonlinear_arith)
            requires
                i == w * (i / w) + i % w,
                tga_source(i, w, h, true, false) == (i / w) * w + i % w,
        ;
        assert(0 <= i * n && i * n + n <= count * n) by (nonlinear_arith)
            requires
                0 <= i < count,
                n > 0,
        ;
        let at = 18 + i * n;
        assert(body.subrange(i * n, i * n + n) == tga_pixel(px[i], alpha));
        assert(b[at] == body[i * n] && b[at + 1] == body[i * n + 1] && b[at + 2] == body[i * n + 2]);
        assert(body[i * n] == tga_pixel(px[i], alpha)[0]);
        assert(body[i * n + 1] == tga_pixel(px[i], alpha)[1]);
        assert(body[i * n + 2] == tga_pixel(px[i], alpha)[2]);
        if alpha {
            assert(b[at + 3] == body[i * n + 3]);
            assert(body[i * n + 3] == tga_pixel(px[i], alpha)[3]);
        } else {
            assert(px[i].a == 255);
        }
    }
}

proof fn lemma_run_len(row: Seq<Pixel>, x: int, k: int)
    requires
        0 <= x < row.len(),
        1 <= k <= 128,
        x + k <= row.len(),
        forall|i: int| x <= i < x + k ==> #[trigger] row[i] == row[x],
    ensures
        k <= run_len(row, x, k) <= 128,
        x + run_len(row, x, k) <= row.len(),
        forall|i: int| x <= i < x + run_len(row, x, k) ==> #[trigger] row[i] == row[x],
    decreases 128 - k,
{
    if !(k >= 128 || x + k >= row.len() || row[x + k] != row[x]) {
        assert forall|i: int| x <= i < x + k + 1 implies #[trigger] row[i] == row[x] by {
            if i < x + k {
            }
        }
        lemma_run_len(row, x, k + 1);
    }
}

proof fn lemma_raw_end(row: Seq<Pixel>, start: int, x: int)
    requires
        start < x <= start + 128,
        x <= row.len(),
    ensures
        x <= raw_end(row, start, x) <= start + 128,
        raw_end(row, start, x) <= row.len(),
    decreases row.len() - x,
{
    if !(x >= row.len() || x - start >= 128) && !(x + 1 < row.len() && row[x + 1] == row[x]) {
        lemma_raw_end(row, start, x + 1);
    }
}

/// The bytes of a decoded TGA sample hold pixel `p` when they are
/// `tga_pixel(p, alpha)`, `p` being opaque when there is no alpha.
proof fn lemma_sample(b: Seq<u8>, at: int, p: Pixel, alpha: bool)
    requires
        0 <= at,
        at + (if alpha { 4int } else { 3int }) <= b.len(),
        b.subrange(at, at + (if alpha { 4int } else { 3int })) == tga_pixel(p, alpha),
        !alpha ==> p.a == 255,
    ensures
        sample_pixel(b, at, if alpha { 4int } else { 3int }, true) == p,
{
    let n = if alpha { 4int } else { 3int };
    assert(b[at] == b.subrange(at, at + n)[0]);
    assert(b[at + 1] == b.subrange(at, at + n)[1]);
    assert(b[at + 2] == b.subrange(at, at + n)[2]);
    if alpha {
        assert(b[at + 3] == b.subrange(at, at + n)[3]);
    }
}

/// The packet that `rle_from` writes at `x` ends before index
/// `rle_next(row, x)` of `row`.
pub open spec fn rle_next(row: Seq<Pixel>, x: int) -> int {
    let run = if run_len(row, x, 1) >= 1 { run_len(row, x, 1) } else { 1 };
    if run >= 2 {
        if x + run > row.len() { row.len() as int } else { x + run }
    } else {
        let e = if raw_end(row, x, x + 1) > x { raw_end(row, x, x + 1) } else { x + 1 };
        if e > row.len() { row.len() as int } else { e }
    }
}

/// The premises shared by the RLE packet lemmas: the packets of `row[x..]`
/// stand in `b` at `pos`, and without alpha every pixel is opaque.
pub open spec fn packets_at(b: Seq<u8>, pos: int, row: Seq<Pixel>, x: int, alpha: bool) -> bool {
    &&& 0 <= pos
    &&& 0 <= x <= row.len()
    &&& pos + rle_from(row, x, alpha).len() <= b.len()
    &&& b.subrange(pos, pos + rle_from(row, x, alpha).len()) == rle_from(row, x, alpha)
    &&& !alpha ==> forall|i: int| 0 <= i < row.len() ==> (#[trigger] row[i]).a == 255
}

/// One RLE packet at `x` decodes to `row[x..rle_next(row, x)]`.
proof fn lemma_rle_packet(b: Seq<u8>, pos: int, row: Seq<Pixel>, x: int, rem: int, alpha: bool)
    requires
        packets_at(b, pos, row, x, alpha),
        x < row.len(),
        rem >= row.len() - x,
    ensures
        ({
            let n = if alpha { 4int } else { 3int };
            let next = rle_next(row, x);
            let s = rle_from(row, x, alpha);
            let t = rle_from(row, next, alpha);
            let c = s.len() - t.len();
            &&& x < next <= row.len()
            &&& c >= 0
            &&& packets_at(b, pos + c, row, next, alpha)
            &&& rle_pixels(b, pos, rem, n, true) == row.subrange(x, next) + rle_pixels(
                b,
                pos + c,
                rem - (next - x),
                n,
                true,
            )
            &&& rle_end(b, pos, rem, n) == rle_end(b, pos + c, rem - (next - x), n)
        }),
{
    let n = if alpha { 4int } else { 3int };
    let s = rle_from(row, x, alpha);
    lemma_run_len(row, x, 1);
    let run = run_len(row, x, 1);
    assert(b[pos] == s[0]);
    if run >= 2 {
        let next = x + run;
        let t = rle_from(row, next, alpha);
        assert(s == seq![(0x80 + run - 1) as u8] + tga_pixel(row[x], alpha) + t);
        assert(b.subrange(pos + 1, pos + 1 + n) =~= tga_pixel(row[x], alpha)) by {
            assert(b.subrange(pos + 1, pos + 1 + n) =~= s.subrange(1, 1 + n));
        }
        lemma_sample(b, pos + 1, row[x], alpha);
        assert(b.subrange(pos + 1 + n, pos + 1 + n + t.len()) =~= s.subrange(1 + n, s.len() as int));
        assert(s.subrange(1 + n, s.len() as int) =~= t);
        assert(Seq::new(run as nat, |j: int| sample_pixel(b, pos + 1, n, true)) =~= row.subrange(x, next));
    } else {
        lemma_raw_end(row, x, x + 1);
        let end = raw_end(row, x, x + 1);
        let t = rle_from(row, end, alpha);
        let chunk = row.subrange(x, end);
        lemma_tga_pixels(chunk, alpha);
        let tp = tga_pixels(chunk, alpha);
        let m = tp.len() as int;
        assert(s == seq![(end - x - 1) as u8] + tp + t);
        assert(tp.len() == (end - x) * n);
        assert(b.subrange(pos + 1, pos + 1 + m) =~= tp) by {
            assert(b.subrange(pos + 1, pos + 1 + m) =~= s.subrange(1, 1 + m));
        }
        assert forall|j: int| 0 <= j < end - x implies sample_pixel(b, pos + 1 + j * n, n, true) == #[trigger] chunk[j] by {
            assert(0 <= j * n && j * n + n <= (end - x) * n) by (nonlinear_arith)
                requires
                    0 <= j < end - x,
                    n > 0,
            ;
            assert(b.subrange(pos + 1 + j * n, pos + 1 + j * n + n) =~= tp.subrange(j * n, j * n + n));
            lemma_sample(b, pos + 1 + j * n, chunk[j], alpha);
        }
        assert(Seq::new((end - x) as nat, |j: int| sample_pixel(b, pos + 1 + j * n, n, true)) =~= chunk);
        assert(b.subrange(pos + 1 + m, pos + 1 + m + t.len()) =~= s.subrange(1 + m, s.len() as int));
        assert(s.subrange(1 + m, s.len() as int) =~= t);
    }
}

/// RLE packets written for `row[x..]` decode back to `row[x..]`, followed
/// by what the packets after them decode to.
proof fn lemma_rle_from(b: Seq<u8>, pos: int, row: Seq<Pixel>, x: int, rem: int, alpha: bool)
    requires
        packets_at(b, pos, row, x, alpha),
        rem >= row.len() - x,
    ensures
        rle_pixels(b, pos, rem, if alpha { 4int } else { 3int }, true) == row.subrange(x, row.len() as int)
            + rle_pixels(
            b,
            pos + rle_from(row, x, alpha).len(),
            rem - (row.len() - x),
            if alpha { 4int } else { 3int },
            true,
        ),
        rle_end(b, pos, rem, if alpha { 4int } else { 3int }) == rle_end(
            b,
            pos + rle_from(row, x, alpha).len(),
            rem - (row.len() - x),
            if alpha { 4int } else { 3int },
        ),
    decreases row.len() - x,
{
    if x >= row.len() {
        assert(row.subrange(x, row.len() as int) =~= Seq::<Pixel>::empty());
    } else {
        lemma_rle_packet(b, pos, row, x, rem, alpha);
        let next = rle_next(row, x);
        let c = rle_from(row, x, alpha).len() - rle_from(row, next, alpha).len();
        lemma_rle_from(b, pos + c, row, next, rem - (next - x), alpha);
        assert(row.subrange(x, row.len() as int) =~= row.subrange(x, next) + row.subrange(
            next,
            row.len() as int,
        ));
    }
}


/// The RLE packets of the first `k` rows of a `w`-wide grid decode to
/// those rows' pixels, followed by what comes after them.
proof fn lemma_rle_rows(b: Seq<u8>, pos: int, px: Seq<Pixel>, w: int, alpha: bool, k: nat, rem: int)
    requires
        0 <= pos,
        w >= 1,
        k * w <= px.len(),
        pos + rle_rows(px, w, alpha, k).len() <= b.len(),
        b.subrange(pos, pos + rle_rows(px, w, alpha, k).len()) == rle_rows(px, w, alpha, k),
        rem >= k * w,
        !alpha ==> forall|i: int| 0 <= i < px.len() ==> (#[trigger] px[i]).a == 255,
    ensures
        rle_pixels(b, pos, rem, if alpha { 4int } else { 3int }, true) == px.subrange(0, k * w) + rle_pixels(
            b,
            pos + rle_rows(px, w, alpha, k).len(),
            rem - k * w,
            if alpha { 4int } else { 3int },
            true,
        ),
        rle_end(b, pos, rem, if alpha { 4int } else { 3int }) == rle_end(
            b,
            pos + rle_rows(px, w, alpha, k).len(),
            rem - k * w,
            if alpha { 4int } else { 3int },
        ),
    decreases k,
{
    if k == 0 {
        assert(px.subrange(0, 0) =~= Seq::<Pixel>::empty());
        assert(0 * w == 0) by (nonlinear_arith);
    } else {
        let k1 = (k - 1) as nat;
        let r = rle_rows(px, w, alpha, k1);
        assert(k1 * w + w == k * w) by (nonlinear_arith)
            requires
                k1 == k - 1,
        ;
        assert(0 <= k1 * w) by (nonlinear_arith)
            requires
                w >= 1,
        ;
        let row = px.subrange(k1 * w, k * w);
        let f = rle_from(row, 0, alpha);
        assert(rle_rows(px, w, alpha, k) == r + f);
        assert(b.subrange(pos, pos + r.len()) =~= rle_rows(px, w, alpha, k).subrange(0, r.len() as int));
        assert(rle_rows(px, w, alpha, k).subrange(0, r.len() as int) =~= r);
        lemma_rle_rows(b, pos, px, w, alpha, k1, rem);
        assert(b.subrange(pos + r.len(), pos + r.len() + f.len()) =~= rle_rows(px, w, alpha, k).subrange(
            r.len() as int,
            (r.len() + f.len()) as int,
        ));
        assert(rle_rows(px, w, alpha, k).subrange(r.len() as int, (r.len() + f.len()) as int) =~= f);
        assert(!alpha ==> forall|i: int| 0 <= i < row.len() ==> (#[trigger] row[i]).a == 255) by {
            if !alpha {
                assert forall|i: int| 0 <= i < row.len() implies (#[trigger] row[i]).a == 255 by {
                    assert(row[i] == px[k1 * w + i]);
                }
            }
        }
        lemma_rle_from(b, pos + r.len(), row, 0, rem - k1 * w, alpha);
        assert(px.subrange(0, k * w) =~= px.subrange(0, k1 * w) + row);
    }
}

/// A TGA file written with RLE is accepted by the decoder's checks, with
/// the image's width and height, and its stored pixels, placed as its
/// origin bits say, are the image's pixels: decoding gives the image back.
pub proof fn lemma_tga_rle_round_trip(img: Image, max_pixels: int, strict: bool)
    requires
        1 <= img.width <= 65535,
        1 <= img.height <= 65535,
        img.pixels@.len() == img.width * img.height,
        img.width * img.height <= max_pixels,
        img.width * img.height * 4 <= usize::MAX,
    ensures
        tga_accepts(tga_file(img, true), max_pixels, strict),
        le16(tga_file(img, true), 12) == img.width,
        le16(tga_file(img, true), 14) == img.height,
        forall|i: int|
            0 <= i < img.width * img.height ==> stored_pixels(tga_file(img, true))[tga_source(
                i,
                img.width as int,
                img.height as int,
                tga_file(img, true)[17] & 0x20 != 0,
                tga_file(img, true)[17] & 0x10 != 0,
            )] == #[trigger] img.pixels@[i],
{
    let px = img.pixels@;
    let w = img.width as int;
    let h = img.height as int;
    let count = w * h;
    let alpha = has_alpha(px);
    let n = if alpha { 4int } else { 3int };
    let b = tga_file(img, true);
    let head = seq![0u8, 0u8, 10u8] + Seq::new(9, |_i: int| 0u8) + le16_bytes(w) + le16_bytes(h) + seq![
        if alpha { 32u8 } else { 24u8 },
        if alpha { 0x28u8 } else { 0x20u8 },
    ];
    let body = rle_rows(px, w, alpha, h as nat);
    let e = 18 + body.len() as int;
    assert(b == head + body + tga_footer());
    assert(head.len() == 18);
    let len = b.len() as int;
    assert(len == 18 + body.len() + 26);
    assert(b[0] == 0 && b[1] == 0 && b[2] == 10);
    assert(b[12] == head[12] && b[13] == head[13] && b[14] == head[14] && b[15] == head[15]);
    assert(le16(b, 12) == w);
    assert(le16(b, 14) == h);
    assert(b[16] == head[16] && b[17] == head[17]);
    lemma_tga_origin_bits();
    assert(b[16] / 8 == n);
    assert(count >= 1) by (nonlinear_arith)
        requires
            count == w * h,
            w >= 1,
            h >= 1,
    ;
    assert(b.subrange(18, e) =~= body);
    assert(!alpha ==> forall|i: int| 0 <= i < px.len() ==> (#[trigger] px[i]).a == 255);
    lemma_rle_rows(b, 18, px, w, alpha, h as nat, count);
    assert(px.subrange(0, count) =~= px);
    assert(rle_end(b, e, 0, n) == Some(e));
    assert(rle_pixels(b, e, 0, n, true) =~= Seq::<Pixel>::empty());
    assert(stored_pixels(b) =~= px);
    assert(b.subrange(len - 18, len) =~= footer_signature());
    assert(tga_accepts(b, max_pixels, strict));
    assert forall|i: int| 0 <= i < count implies stored_pixels(b)[tga_source(i, w, h, b[17] & 0x20 != 0, b[17]
        & 0x10 != 0)] == #[trigger] px[i] by {
        vstd::arithmetic::div_mod::lemma_fundamental_div_mod(i, w);
        assert(tga_source(i, w, h, true, false) == i) by (nonlinear_arith)
            requires
                i == w * (i / w) + i % w,
                tga_source(i, w, h, true, false) == (i / w) * w + i % w,
        ;
    }
}

} // verus!
