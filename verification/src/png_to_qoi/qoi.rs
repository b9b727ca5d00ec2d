//! The QOI image format: a byte-oriented encoder and decoder.
use vstd::prelude::*;
use crate::bytes::{be32, be32_bytes, push_be32, read_be32};
use super::{checked_pixels, pixels_ok, Encoded, Error, Image, Options, Pixel};

verus! {

pub open spec fn hash_of(p: Pixel) -> int {
    (p.r * 3 + p.g * 5 + p.b * 7 + p.a * 11) % 64
}

pub fn qoi_hash(p: Pixel) -> (h: usize)
    ensures
        h == hash_of(p),
        h < 64,
{
    (p.r as usize * 3 + p.g as usize * 5 + p.b as usize * 7 + p.a as usize * 11) % 64
}

/// The encoder's state between pixels.
pub struct Enc {
    pub out: Seq<u8>,
    pub prev: Pixel,
    pub index: Seq<Pixel>,
    pub run: int,
}

/// `a - b` on bytes, as a signed value in -128..127.
pub open spec fn wdiff(a: u8, b: u8) -> int {
    let d = if a >= b { a - b } else { a - b + 256 };
    if d >= 128 { d - 256 } else { d }
}

/// `x` wrapped into -128..127.
pub open spec fn wrap8(x: int) -> int {
    if x > 127 {
        x - 256
    } else if x < -128 {
        x + 256
    } else {
        x
    }
}

/// The chunk that codes `p` after `prev`, when `p` is neither a repeat nor
/// in the index.
pub open spec fn diff_chunk(p: Pixel, prev: Pixel) -> Seq<u8> {
    if p.a == prev.a {
        let dr = wdiff(p.r, prev.r);
        let dg = wdiff(p.g, prev.g);
        let db = wdiff(p.b, prev.b);
        let dr_dg = wrap8(dr - dg);
        let db_dg = wrap8(db - dg);
        if -2 <= dr <= 1 && -2 <= dg <= 1 && -2 <= db <= 1 {
            seq![(64 + (dr + 2) * 16 + (dg + 2) * 4 + (db + 2)) as u8]
        } else if -32 <= dg <= 31 && -8 <= dr_dg <= 7 && -8 <= db_dg <= 7 {
            seq![(128 + dg + 32) as u8, ((dr_dg + 8) * 16 + (db_dg + 8)) as u8]
        } else {
            seq![0xfeu8, p.r, p.g, p.b]
        }
    } else {
        seq![0xffu8, p.r, p.g, p.b, p.a]
    }
}

/// The encoder state after pixel `p`; `last` marks the final pixel.
pub open spec fn enc_step(s: Enc, p: Pixel, last: bool) -> Enc {
    if p == s.prev {
        let run = s.run + 1;
        if run == 62 || last {
            Enc { out: s.out.push((0xc0 + run - 1) as u8), run: 0, ..s }
        } else {
            Enc { run, ..s }
        }
    } else {
        let flushed = if s.run > 0 { s.out.push((0xc0 + s.run - 1) as u8) } else { s.out };
        let h = hash_of(p);
        if s.index[h] == p {
            Enc { out: flushed.push(h as u8), prev: p, index: s.index, run: 0 }
        } else {
            Enc { out: flushed + diff_chunk(p, s.prev), prev: p, index: s.index.update(h, p), run: 0 }
        }
    }
}

/// The encoder state after the first `n` of `px`.
pub open spec fn enc_run(px: Seq<Pixel>, n: nat) -> Enc
    decreases n,
{
    if n == 0 {
        Enc {
            out: Seq::empty(),
            prev: Pixel { r: 0, g: 0, b: 0, a: 255 },
            index: Seq::new(64, |_i: int| Pixel { r: 0, g: 0, b: 0, a: 0 }),
            run: 0,
        }
    } else {
        enc_step(enc_run(px, (n - 1) as nat), px[n - 1], n == px.len())
    }
}

pub open spec fn has_alpha(px: Seq<Pixel>) -> bool {
    exists|i: int| 0 <= i < px.len() && #[trigger] px[i].a != 255
}

/// The QOI file for `img`.
pub open spec fn qoi_file(img: Image) -> Seq<u8> {
    seq![0x71u8, 0x6f, 0x69, 0x66] + be32_bytes(img.width as int) + be32_bytes(img.height as int)
        + seq![if has_alpha(img.pixels@) { 4u8 } else { 3u8 }, 0u8] + enc_run(
        img.pixels@,
        img.pixels@.len(),
    ).out + seq![0u8, 0, 0, 0, 0, 0, 0, 1]
}

pub fn any_alpha(px: &Vec<Pixel>) -> (r: bool)
    ensures
        r == has_alpha(px@),
{
    let mut i: usize = 0;
    while i < px.len()
        invariant
            i <= px@.len(),
            forall|j: int| 0 <= j < i ==> #[trigger] px@[j].a == 255,
        decreases px@.len() - i,
    {
        if px[i].a != 255 {
            return true;
        }
        i = i + 1;
    }
    false
}

fn signed_diff(a: u8, b: u8) -> (r: i16)
    ensures
        r as int == wdiff(a, b),
{
    let d = a.wrapping_sub(b);
    if d >= 128 {
        d as i16 - 256
    } else {
        d as i16
    }
}

fn wrap(x: i16) -> (r: i16)
    requires
        -255 <= x <= 255,
    ensures
        r as int == wrap8(x as int),
{
    if x > 127 {
        x - 256
    } else if x < -128 {
        x + 256
    } else {
        x
    }
}

fn push_diff(out: &mut Vec<u8>, p: Pixel, prev: Pixel)
    ensures
        final(out)@ == old(out)@ + diff_chunk(p, prev),
{
    if p.a == prev.a {
        let dr = signed_diff(p.r, prev.r);
        let dg = signed_diff(p.g, prev.g);
        let db = signed_diff(p.b, prev.b);
        let dr_dg = wrap(dr - dg);
        let db_dg = wrap(db - dg);
        if -2 <= dr && dr <= 1 && -2 <= dg && dg <= 1 && -2 <= db && db <= 1 {
            out.push((64 + (dr + 2) * 16 + (dg + 2) * 4 + (db + 2)) as u8);
        } else if -32 <= dg && dg <= 31 && -8 <= dr_dg && dr_dg <= 7 && -8 <= db_dg && db_dg <= 7 {
            out.push((128 + dg + 32) as u8);
            out.push(((dr_dg + 8) * 16 + (db_dg + 8)) as u8);
        } else {
            out.push(0xfeu8);
            out.push(p.r);
            out.push(p.g);
            out.push(p.b);
        }
    } else {
        out.push(0xffu8);
        out.push(p.r);
        out.push(p.g);
        out.push(p.b);
        out.push(p.a);
    }
    assert(out@ =~= old(out)@ + diff_chunk(p, prev));
}

/// Encodes `image` as QOI.
pub fn encode_qoi(image: &Image) -> (r: Result<Encoded, Error>)
    ensures
        r matches Ok(e) ==> e.bytes@ == qoi_file(*image) && e.channels == (if has_alpha(
            image.pixels@,
        ) { 4u8 } else { 3u8 }),
        r is Ok,
{
    let alpha = any_alpha(&image.pixels);
    let mut out: Vec<u8> = Vec::new();
    out.push(0x71u8);
    out.push(0x6fu8);
    out.push(0x69u8);
    out.push(0x66u8);
    push_be32(&mut out, image.width);
    push_be32(&mut out, image.height);
    out.push(if alpha { 4u8 } else { 3u8 });
    out.push(0u8);
    let ghost head = out@;
    let mut previous = Pixel { r: 0, g: 0, b: 0, a: 255 };
    let mut index: Vec<Pixel> = Vec::new();
    let mut k: usize = 0;
    while k < 64
        invariant
            k <= 64,
            index@.len() == k,
            forall|j: int| 0 <= j < k ==> index@[j] == (Pixel { r: 0, g: 0, b: 0, a: 0 }),
        decreases 64 - k,
    {
        index.push(Pixel { r: 0, g: 0, b: 0, a: 0 });
        k = k + 1;
    }
    let mut run: usize = 0;
    let n = image.pixels.len();
    assert(index@ =~= enc_run(image.pixels@, 0).index);
    assert(out@ =~= head + enc_run(image.pixels@, 0).out);
    let mut i: usize = 0;
    while i < n
        invariant
            i <= n,
            n == image.pixels@.len(),
            index@.len() == 64,
            run < 62,
            ({
                let s = enc_run(image.pixels@, i as nat);
                &&& out@ == head + s.out
                &&& previous == s.prev
                &&& index@ == s.index
                &&& run == s.run
            }),
        decreases n - i,
    {
        let pixel = image.pixels[i];
        let last = i + 1 == n;
        let ghost before = out@;
        if pixel == previous {
            run = run + 1;
            if run == 62 || last {
                out.push((0xc0 + run - 1) as u8);
                run = 0;
            }
        } else {
            if run > 0 {
                out.push((0xc0 + run - 1) as u8);
                run = 0;
            }
            let h = qoi_hash(pixel);
            if index[h] == pixel {
                out.push(h as u8);
            } else {
                index.set(h, pixel);
                push_diff(&mut out, pixel, previous);
            }
            previous = pixel;
        }
        proof {
            let s = enc_run(image.pixels@, i as nat);
            let t = enc_run(image.pixels@, (i + 1) as nat);
            assert(t == enc_step(s, image.pixels@[i as int], last));
            assert(out@ =~= head + t.out);
            assert(index@ =~= t.index);
        }
        i = i + 1;
    }
    out.push(0u8);
    out.push(0u8);
    out.push(0u8);
    out.push(0u8);
    out.push(0u8);
    out.push(0u8);
    out.push(0u8);
    out.push(1u8);
    assert(out@ =~= qoi_file(*image));
    Ok(Encoded { bytes: out, channels: if alpha { 4 } else { 3 }, alpha_action: "preserved" })
}

/// The decoder's state between pixels.
pub struct Dec {
    pub pos: int,
    pub prev: Pixel,
    pub index: Seq<Pixel>,
    pub run: int,
    pub pixels: Seq<Pixel>,
}

pub open spec fn add8(a: u8, d: int) -> u8 {
    ((a + d) % 256) as u8
}

/// The pixel the chunk at `s.pos` (or the pending run) produces, with the
/// state after it; `None` when the chunk is cut short.
pub open spec fn dec_next(b: Seq<u8>, s: Dec) -> Option<Dec> {
    if s.run > 0 {
        Some(Dec { run: s.run - 1, ..s })
    } else if s.pos >= b.len() {
        None
    } else {
        let tag = b[s.pos];
        let pos = s.pos + 1;
        if tag == 0xfe {
            if pos + 3 > b.len() {
                None
            } else {
                Some(Dec { pos: pos + 3, prev: Pixel { r: b[pos], g: b[pos + 1], b: b[pos + 2], a: s.prev.a }, ..s })
            }
        } else if tag == 0xff {
            if pos + 4 > b.len() {
                None
            } else {
                Some(Dec { pos: pos + 4, prev: Pixel { r: b[pos], g: b[pos + 1], b: b[pos + 2], a: b[pos + 3] }, ..s })
            }
        } else if tag < 64 {
            Some(Dec { pos, prev: s.index[tag as int], ..s })
        } else if tag < 128 {
            let v = tag - 64;
            Some(Dec {
                pos,
                prev: Pixel {
                    r: add8(s.prev.r, v / 16 - 2),
                    g: add8(s.prev.g, (v / 4) % 4 - 2),
                    b: add8(s.prev.b, v % 4 - 2),
                    a: s.prev.a,
                },
                ..s
            })
        } else if tag < 192 {
            if pos >= b.len() {
                None
            } else {
                let second = b[pos];
                let dg = tag - 128 - 32;
                Some(Dec {
                    pos: pos + 1,
                    prev: Pixel {
                        r: add8(s.prev.r, dg + second / 16 - 8),
                        g: add8(s.prev.g, dg),
                        b: add8(s.prev.b, dg + second % 16 - 8),
                        a: s.prev.a,
                    },
                    ..s
                })
            }
        } else {
            Some(Dec { pos, run: tag - 192, ..s })
        }
    }
}

/// The decoder state after one more pixel.
pub open spec fn dec_step(b: Seq<u8>, s: Dec) -> Option<Dec> {
    match dec_next(b, s) {
        None => None,
        Some(d) => Some(Dec { index: d.index.update(hash_of(d.prev), d.prev), pixels: d.pixels.push(d.prev), ..d }),
    }
}

/// The decoder after `n` pixels.
pub open spec fn dec_run(b: Seq<u8>, n: nat) -> Option<Dec>
    decreases n,
{
    if n == 0 {
        Some(Dec {
            pos: 14,
            prev: Pixel { r: 0, g: 0, b: 0, a: 255 },
            index: Seq::new(64, |_i: int| Pixel { r: 0, g: 0, b: 0, a: 0 }),
            run: 0,
            pixels: Seq::empty(),
        })
    } else {
        match dec_run(b, (n - 1) as nat) {
            None => None,
            Some(s) => dec_step(b, s),
        }
    }
}

/// The header fields `(width, height, channels)` when the QOI header is valid.
pub open spec fn qoi_header(b: Seq<u8>) -> bool {
    &&& b.len() >= 14
    &&& b.subrange(0, 4) == seq![0x71u8, 0x6f, 0x69, 0x66]
    &&& (b[12] == 3 || b[12] == 4)
    &&& b[13] <= 1
}

fn add_wrapped(a: u8, d: i16) -> (r: u8)
    requires
        -64 <= d <= 64,
    ensures
        r == add8(a, d as int),
{
    ((a as i32 + d as i32 + 512) % 256) as u8
}

/// The pixel the next chunk (or the pending run) produces.
fn next_pixel(bytes: &[u8], pos: usize, previous: Pixel, index: &Vec<Pixel>, run: usize) -> (r: Result<(Pixel, usize, usize), Error>)
    requires
        index@.len() == 64,
        pos <= bytes@.len(),
        run < 64,
    ensures
        ({
            let s = Dec { pos: pos as int, prev: previous, index: index@, run: run as int, pixels: Seq::empty() };
            match dec_next(bytes@, s) {
                Some(d) => r matches Ok((p, q, n)) && p == d.prev && q == d.pos && n == d.run && q
                    <= bytes@.len() && n < 64,
                None => r is Err,
            }
        }),
{
    let len = bytes.len();
    if run > 0 {
        return Ok((previous, pos, run - 1));
    }
    if pos >= len {
        return Err(Error::Truncated("QOI chunk"));
    }
    let tag = bytes[pos];
    let pos = pos + 1;
    if tag == 0xfe {
        if len - pos < 3 {
            return Err(Error::Truncated("QOI RGB chunk"));
        }
        Ok((Pixel { r: bytes[pos], g: bytes[pos + 1], b: bytes[pos + 2], a: previous.a }, pos + 3, 0))
    } else if tag == 0xff {
        if len - pos < 4 {
            return Err(Error::Truncated("QOI RGBA chunk"));
        }
        Ok((Pixel { r: bytes[pos], g: bytes[pos + 1], b: bytes[pos + 2], a: bytes[pos + 3] }, pos + 4, 0))
    } else if tag < 64 {
        Ok((index[tag as usize], pos, 0))
    } else if tag < 128 {
        let v = (tag - 64) as i16;
        Ok((
            Pixel {
                r: add_wrapped(previous.r, v / 16 - 2),
                g: add_wrapped(previous.g, (v / 4) % 4 - 2),
                b: add_wrapped(previous.b, v % 4 - 2),
                a: previous.a,
            },
            pos,
            0,
        ))
    } else if tag < 192 {
        if pos >= len {
            return Err(Error::Truncated("QOI LUMA chunk"));
        }
        let second = bytes[pos] as i16;
        let dg = tag as i16 - 128 - 32;
        Ok((
            Pixel {
                r: add_wrapped(previous.r, dg + second / 16 - 8),
                g: add_wrapped(previous.g, dg),
                b: add_wrapped(previous.b, dg + second % 16 - 8),
                a: previous.a,
            },
            pos + 1,
            0,
        ))
    } else {
        Ok((previous, pos, (tag - 192) as usize))
    }
}

/// Decodes a QOI file.
/// The QOI end marker.
pub open spec fn qoi_end() -> Seq<u8> {
    seq![0u8, 0, 0, 0, 0, 0, 0, 1]
}

/// Whether `b` is a QOI file that decodes: a valid header, dimensions of at
/// most `max_pixels` pixels, every pixel's chunks present, then the end
/// marker (and, when `strict`, nothing after it).
pub open spec fn qoi_decodes(b: Seq<u8>, max_pixels: int, strict: bool) -> bool {
    let w = be32(b, 4);
    let h = be32(b, 8);
    &&& qoi_header(b)
    &&& 1 <= w && 1 <= h && w * h <= max_pixels && w * h <= usize::MAX
    &&& dec_run(b, (w * h) as nat) matches Some(d) && d.pos + 8 <= b.len() && b.subrange(d.pos, d.pos + 8)
        == qoi_end() && (strict ==> d.pos + 8 == b.len())
}

proof fn lemma_dec_run_stops(b: Seq<u8>, m: nat, n: nat)
    requires
        m <= n,
        dec_run(b, m) is None,
    ensures
        dec_run(b, n) is None,
    decreases n - m,
{
    if m < n {
        lemma_dec_run_stops(b, m, (n - 1) as nat);
    }
}

proof fn lemma_dec_fails(b: Seq<u8>, n: nat, count: nat)
    requires
        n < count,
        dec_run(b, n) is Some,
        dec_next(b, Dec { pixels: Seq::empty(), ..dec_run(b, n)->0 }) is None,
    ensures
        dec_run(b, count) is None,
{
    let s = dec_run(b, n)->0;
    assert(dec_next(b, s) is None);
    assert(dec_run(b, n + 1) is None);
    lemma_dec_run_stops(b, n + 1, count);
}

#[verifier::rlimit(60)]
pub fn decode_qoi(bytes: &[u8], options: &Options) -> (r: Result<Image, Error>)
    ensures
        r is Ok <==> qoi_decodes(bytes@, options.max_pixels as int, options.strict_trailing_data),
        r matches Ok(img) ==> {
            let n = (be32(bytes@, 4) * be32(bytes@, 8)) as nat;
            &&& qoi_header(bytes@)
            &&& img.width == be32(bytes@, 4) && img.height == be32(bytes@, 8)
            &&& img.source_channels == bytes@[12]
            &&& dec_run(bytes@, n) matches Some(d) && img.pixels@ == d.pixels && d.pos + 8
                <= bytes@.len() && bytes@.subrange(d.pos, d.pos + 8) == seq![0u8, 0, 0, 0, 0, 0, 0, 1]
                && (options.strict_trailing_data ==> d.pos + 8 == bytes@.len())
            &&& img.pixels@.len() == n
            &&& n <= options.max_pixels
        },
{
    let len = bytes.len();
    if len < 14 {
        return Err(Error::Truncated("QOI header"));
    }
    if !(bytes[0] == 0x71 && bytes[1] == 0x6f && bytes[2] == 0x69 && bytes[3] == 0x66) {
        return Err(Error::InvalidSignature("QOI"));
    }
    assert(bytes@.subrange(0, 4) =~= seq![0x71u8, 0x6f, 0x69, 0x66]);
    let width = read_be32(bytes, 4);
    let height = read_be32(bytes, 8);
    let channels = bytes[12];
    if channels != 3 && channels != 4 {
        return Err(Error::InvalidHeader("QOI channels must be 3 or 4"));
    }
    if bytes[13] > 1 {
        return Err(Error::InvalidHeader("QOI colorspace must be 0 or 1"));
    }
    let count = match checked_pixels(width, height, options) {
        Ok(c) => c,
        Err(e) => return Err(e),
    };
    let mut pos: usize = 14;
    let mut previous = Pixel { r: 0, g: 0, b: 0, a: 255 };
    let mut index: Vec<Pixel> = Vec::new();
    let mut k: usize = 0;
    while k < 64
        invariant
            k <= 64,
            index@.len() == k,
            forall|j: int| 0 <= j < k ==> index@[j] == (Pixel { r: 0, g: 0, b: 0, a: 0 }),
        decreases 64 - k,
    {
        index.push(Pixel { r: 0, g: 0, b: 0, a: 0 });
        k = k + 1;
    }
    let mut run: usize = 0;
    let mut pixels: Vec<Pixel> = Vec::new();
    assert(index@ =~= dec_run(bytes@, 0)->0.index);
    while pixels.len() < count
        invariant
            len == bytes@.len(),
            pixels@.len() <= count,
            index@.len() == 64,
            dec_run(bytes@, pixels@.len() as nat) matches Some(d) && d.pos == pos && d.prev
                == previous && d.index == index@ && d.run == run && d.pixels == pixels@,
            pos <= len,
            run < 64,
            count as int == be32(bytes@, 4) * be32(bytes@, 8),
        decreases count - pixels@.len(),
    {
        let ghost s = dec_run(bytes@, pixels@.len() as nat)->0;
        let (p2, pos2, run2) = match next_pixel(bytes, pos, previous, &index, run) {
            Ok(v) => v,
            Err(e) => {
                proof {
                    lemma_dec_fails(bytes@, pixels@.len() as nat, count as nat);
                    assert(!qoi_decodes(bytes@, options.max_pixels as int, options.strict_trailing_data));
                }
                return Err(e);
            },
        };
        previous = p2;
        pos = pos2;
        run = run2;
        let h = qoi_hash(previous);
        index.set(h, previous);
        pixels.push(previous);
        proof {
            let t = dec_step(bytes@, s);
            assert(dec_run(bytes@, pixels@.len() as nat) == t);
            assert(index@ =~= t->0.index);
            assert(pixels@ =~= t->0.pixels);
        }
    }
    if pos > len || len - pos < 8 {
        return Err(Error::Truncated("QOI end marker"));
    }
    if !(bytes[pos] == 0 && bytes[pos + 1] == 0 && bytes[pos + 2] == 0 && bytes[pos + 3] == 0 && bytes[pos + 4] == 0 && bytes[pos + 5] == 0 && bytes[pos + 6] == 0 && bytes[pos + 7] == 1) {
        proof {
            let m = bytes@.subrange(pos as int, pos + 8);
            if m == qoi_end() {
                assert(m[0] == bytes@[pos as int] && m[1] == bytes@[pos + 1] && m[2] == bytes@[pos + 2]
                    && m[3] == bytes@[pos + 3] && m[4] == bytes@[pos + 4] && m[5] == bytes@[pos + 5]
                    && m[6] == bytes@[pos + 6] && m[7] == bytes@[pos + 7]);
            }
        }
        return Err(Error::InvalidHeader("invalid QOI end marker"));
    }
    assert(bytes@.subrange(pos as int, pos + 8) =~= seq![0u8, 0, 0, 0, 0, 0, 0, 1]);
    if options.strict_trailing_data && pos + 8 != len {
        return Err(Error::TrailingData { bytes: len - pos - 8 });
    }
    Ok(Image { width, height, source_channels: channels, pixels, warnings: Vec::new() })
}

} // verus!
