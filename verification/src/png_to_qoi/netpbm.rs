//! The Netpbm profiles: PPM (P3/P6) and PAM (P7).
use vstd::prelude::*;
use crate::text::{decimal_bytes, push_decimal_bytes};
use super::{checked_pixels, AlphaPolicy, Encoded, Error, Image, Options, Pixel};
use super::qoi::{any_alpha, has_alpha};

verus! {

/// The bytes `u8::is_ascii_whitespace` accepts.
pub open spec fn is_space(b: u8) -> bool {
    b == 0x20 || b == 0x09 || b == 0x0a || b == 0x0c || b == 0x0d
}

fn space(b: u8) -> (r: bool)
    ensures
        r == is_space(b),
{
    b == 0x20 || b == 0x09 || b == 0x0a || b == 0x0c || b == 0x0d
}

/// `b[s..e]` is a whole token: no whitespace or `#` inside, and none of
/// them or the end right after it.
pub open spec fn token_at(b: Seq<u8>, s: int, e: int) -> bool {
    &&& 0 <= s < e <= b.len()
    &&& forall|j: int| s <= j < e ==> !is_space(#[trigger] b[j]) && b[j] != 0x23
    &&& (e == b.len() || is_space(b[e]) || b[e] == 0x23)
}

/// The end of the line from `p`: the first newline at or after `p`, or
/// the end of `b`.
pub open spec fn line_end(b: Seq<u8>, p: int) -> int
    decreases b.len() - p,
{
    if p < 0 || p >= b.len() {
        b.len() as int
    } else if b[p] == 0x0a {
        p
    } else {
        line_end(b, p + 1)
    }
}

/// The end of the line from `p` lies between `p` and the end of `b`.
pub proof fn lemma_line_end(b: Seq<u8>, p: int)
    requires
        0 <= p,
    ensures
        p <= line_end(b, p) || p > b.len(),
        line_end(b, p) <= b.len(),
    decreases b.len() - p,
{
    if p < b.len() && b[p] != 0x0a {
        lemma_line_end(b, p + 1);
    }
}

/// Where the whitespace and `#` comments from `p` end.
pub open spec fn skip_end(b: Seq<u8>, p: int) -> int
    decreases b.len() + 1 - p,
{
    if p < 0 || p >= b.len() {
        p
    } else if is_space(b[p]) {
        skip_end(b, p + 1)
    } else if b[p] == 0x23 {
        proof {
            lemma_line_end(b, p + 1);
        }
        skip_end(b, line_end(b, p + 1))
    } else {
        p
    }
}

/// The end of the token that starts at `p`.
pub open spec fn token_end(b: Seq<u8>, p: int) -> int
    decreases b.len() - p,
{
    if p < 0 || p >= b.len() || is_space(b[p]) || b[p] == 0x23 {
        p
    } else {
        token_end(b, p + 1)
    }
}

/// The number the next token from `p` spells, if there is a token and it
/// spells one.
pub open spec fn next_number(b: Seq<u8>, p: int) -> Option<nat> {
    let s = skip_end(b, p);
    if s >= b.len() {
        None
    } else {
        decimal_number(b.subrange(s, token_end(b, s)))
    }
}

/// A reader of whitespace-separated Netpbm tokens with `#` comments.
pub struct TokenCursor {
    pub pos: usize,
}

impl TokenCursor {
    /// Skips whitespace and comments.
    pub fn skip(&mut self, bytes: &[u8])
        requires
            old(self).pos <= bytes@.len(),
        ensures
            old(self).pos <= final(self).pos <= bytes@.len(),
            final(self).pos < bytes@.len() ==> !is_space(bytes@[final(self).pos as int]) && bytes@[final(self).pos as int] != 0x23,
            final(self).pos == skip_end(bytes@, old(self).pos as int),
    {
        let len = bytes.len();
        loop
            invariant_except_break
                old(self).pos <= self.pos <= len,
                len == bytes@.len(),
                skip_end(bytes@, old(self).pos as int) == skip_end(bytes@, self.pos as int),
            ensures
                old(self).pos <= self.pos <= len,
                self.pos < len ==> !is_space(bytes@[self.pos as int]) && bytes@[self.pos as int] != 0x23,
                self.pos == skip_end(bytes@, old(self).pos as int),
            decreases len - self.pos,
        {
            let ghost p0 = self.pos;
            while self.pos < len && space(bytes[self.pos])
                invariant
                    p0 <= self.pos,
                    old(self).pos <= self.pos <= len,
                    len == bytes@.len(),
                    skip_end(bytes@, old(self).pos as int) == skip_end(bytes@, self.pos as int),
                decreases len - self.pos,
            {
                self.pos = self.pos + 1;
            }
            if self.pos < len && bytes[self.pos] == 0x23 {
                let ghost hash = self.pos as int;
                self.pos = self.pos + 1;
                while self.pos < len && bytes[self.pos] != 0x0a
                    invariant
                        p0 < self.pos,
                        old(self).pos <= self.pos <= len,
                        len == bytes@.len(),
                        hash + 1 <= self.pos,
                        line_end(bytes@, hash + 1) == line_end(bytes@, self.pos as int),
                        skip_end(bytes@, old(self).pos as int) == skip_end(bytes@, line_end(bytes@, hash + 1)),
                    decreases len - self.pos,
                {
                    self.pos = self.pos + 1;
                }
                if self.pos >= len {
                    break;
                }
                continue;
            }
            break;
        }
    }

    /// The next token as a byte range `(start, end)`.
    pub fn token(&mut self, bytes: &[u8], region: &'static str) -> (r: Result<(usize, usize), Error>)
        requires
            old(self).pos <= bytes@.len(),
        ensures
            final(self).pos <= bytes@.len(),
            r matches Ok((s, e)) ==> s < e && e == final(self).pos && old(self).pos <= s && token_at(
                bytes@,
                s as int,
                e as int,
            ),
            r matches Err(e) ==> e is Truncated,
            r is Err ==> final(self).pos == bytes@.len(),
            r is Err <==> skip_end(bytes@, old(self).pos as int) >= bytes@.len(),
            r matches Ok((s, e)) ==> s == skip_end(bytes@, old(self).pos as int) && e == token_end(bytes@, s as int),
    {
        self.skip(bytes);
        let start = self.pos;
        let len = bytes.len();
        while self.pos < len && !space(bytes[self.pos]) && bytes[self.pos] != 0x23
            invariant
                start <= self.pos <= len,
                len == bytes@.len(),
                old(self).pos <= start,
                start < len ==> !is_space(bytes@[start as int]) && bytes@[start as int] != 0x23,
                forall|j: int| start <= j < self.pos ==> !is_space(#[trigger] bytes@[j]) && bytes@[j] != 0x23,
                token_end(bytes@, start as int) == token_end(bytes@, self.pos as int),
            decreases len - self.pos,
        {
            self.pos = self.pos + 1;
        }
        if start == self.pos {
            return Err(Error::Truncated(region));
        }
        Ok((start, self.pos))
    }

    /// The next token read as a decimal `u32`.
    pub fn number(&mut self, bytes: &[u8], region: &'static str) -> (r: Result<u32, Error>)
        requires
            old(self).pos <= bytes@.len(),
        ensures
            final(self).pos <= bytes@.len(),
            r is Ok <==> (next_number(bytes@, old(self).pos as int) matches Some(v) && v <= u32::MAX),
            r matches Ok(v) ==> next_number(bytes@, old(self).pos as int) == Some(v as nat),
            r is Ok ==> final(self).pos == after_token(bytes@, old(self).pos as int),
    {
        let (start, end) = match self.token(bytes, region) {
            Ok(v) => v,
            Err(e) => return Err(e),
        };
        let r = parse_u32(bytes, start, end, 0xFFFF_FFFF);
        assert(bytes@.subrange(start as int, end as int) == bytes@.subrange(start as int, end as int));
        r
    }
}

pub open spec fn is_ascii_digit(c: u8) -> bool {
    0x30 <= c <= 0x39
}

/// The value of the ASCII decimal digits `d`.
pub open spec fn ascii_digits_value(d: Seq<u8>) -> nat
    decreases d.len(),
{
    if d.len() == 0 {
        0
    } else {
        ascii_digits_value(d.drop_last()) * 10 + (d.last() - 0x30) as nat
    }
}

/// `s` without a leading `+`.
pub open spec fn unsigned_digits(s: Seq<u8>) -> Seq<u8> {
    if s.len() > 0 && s[0] == 0x2b {
        s.drop_first()
    } else {
        s
    }
}

/// The number `s` spells: an optional `+`, then one or more decimal digits.
pub open spec fn decimal_number(s: Seq<u8>) -> Option<nat> {
    let d = unsigned_digits(s);
    if d.len() == 0 || !(forall|i: int| 0 <= i < d.len() ==> is_ascii_digit(#[trigger] d[i])) {
        None
    } else {
        Some(ascii_digits_value(d))
    }
}

proof fn lemma_ascii_digits_grow(d: Seq<u8>, i: int)
    requires
        0 <= i <= d.len(),
        forall|j: int| 0 <= j < d.len() ==> is_ascii_digit(#[trigger] d[j]),
    ensures
        ascii_digits_value(d.take(i)) <= ascii_digits_value(d),
    decreases d.len() - i,
{
    if i < d.len() {
        lemma_ascii_digits_grow(d, i + 1);
        assert(d.take(i + 1).drop_last() =~= d.take(i));
    } else {
        assert(d.take(i) =~= d);
    }
}

/// The decimal value of `b[start..end]`: an optional `+` and at least one
/// digit, at most `max`.
pub fn parse_u32(b: &[u8], start: usize, end: usize, max: u32) -> (r: Result<u32, Error>)
    requires
        start <= end <= b@.len(),
    ensures
        r matches Ok(v) ==> v <= max,
        r is Ok <==> (decimal_number(b@.subrange(start as int, end as int)) matches Some(v) && v <= max),
        r matches Ok(v) ==> decimal_number(b@.subrange(start as int, end as int)) == Some(v as nat),
{
    let ghost s = b@.subrange(start as int, end as int);
    let ghost d = unsigned_digits(s);
    let ghost ds: int = if s.len() > 0 && s[0] == 0x2b { start + 1 } else { start as int };
    assert(d =~= b@.subrange(ds, end as int));
    let mut i = start;
    let mut k: usize = start;
    while k < end
        invariant
            start <= k <= end,
            end <= b@.len(),
            start <= ds <= end,
            ds == start + 1 ==> b@[start as int] == 0x2b,
            d =~= b@.subrange(ds, end as int),
            d == unsigned_digits(b@.subrange(start as int, end as int)),
        decreases end - k,
    {
        if b[k] >= 0x80 {
            proof {
                if k >= ds {
                    assert(d[k - ds] == b@[k as int]);
                    assert(!is_ascii_digit(d[k - ds]));
                }
            }
            return Err(Error::InvalidHeader("non-ASCII Netpbm number"));
        }
        k = k + 1;
    }
    if i < end && b[i] == 0x2b {
        i = i + 1;
    }
    assert(i == ds);
    if i == end {
        return Err(Error::InvalidHeader("invalid Netpbm number"));
    }
    let mut value: u64 = 0;
    while i < end
        invariant
            start <= ds <= i <= end,
            end <= b@.len(),
            value <= max,
            d =~= b@.subrange(ds, end as int),
            d == unsigned_digits(b@.subrange(start as int, end as int)),
            d.len() > 0,
            forall|j: int| 0 <= j < i - ds ==> is_ascii_digit(#[trigger] d[j]),
            value as nat == ascii_digits_value(d.take(i - ds)),
        decreases end - i,
    {
        let c = b[i];
        assert(c == d[i - ds]);
        if c < 0x30 || c > 0x39 {
            assert(!is_ascii_digit(d[i - ds]));
            return Err(Error::InvalidHeader("invalid Netpbm number"));
        }
        assert(d.take(i - ds + 1).drop_last() =~= d.take(i - ds));
        value = value * 10 + (c - 0x30) as u64;
        if value > max as u64 {
            proof {
                assert(ascii_digits_value(d.take(i - ds + 1)) > max);
                if forall|j: int| 0 <= j < d.len() ==> is_ascii_digit(#[trigger] d[j]) {
                    lemma_ascii_digits_grow(d, i - ds + 1);
                }
            }
            return Err(Error::InvalidHeader("invalid Netpbm number"));
        }
        i = i + 1;
    }
    assert(d.take(i - ds) =~= d);
    Ok(value as u32)
}

/// A sample at `maxval` rescaled to eight bits, rounding to nearest.
pub open spec fn scaled_sample(value: int, maxval: int) -> int {
    (value * 255 + maxval / 2) / maxval
}

pub fn scale_sample(value: u16, maxval: u16) -> (r: u8)
    requires
        1 <= maxval,
        value <= maxval,
    ensures
        r as int == scaled_sample(value as int, maxval as int),
{
    assert((value as int * 255 + maxval as int / 2) / (maxval as int) <= 255) by (nonlinear_arith)
        requires
            1 <= maxval,
            value <= maxval,
    ;
    ((value as u32 * 255 + maxval as u32 / 2) / maxval as u32) as u8
}

/// The output bytes of one pixel under the alpha policy.
pub open spec fn ppm_pixel(p: Pixel, policy: AlphaPolicy) -> Seq<u8> {
    if policy == AlphaPolicy::CompositeBlack {
        seq![
            ((p.r * p.a + 127) / 255) as u8,
            ((p.g * p.a + 127) / 255) as u8,
            ((p.b * p.a + 127) / 255) as u8,
        ]
    } else {
        seq![p.r, p.g, p.b]
    }
}

pub open spec fn ppm_pixels(px: Seq<Pixel>, policy: AlphaPolicy) -> Seq<u8>
    decreases px.len(),
{
    if px.len() == 0 {
        Seq::empty()
    } else {
        ppm_pixels(px.drop_last(), policy) + ppm_pixel(px.last(), policy)
    }
}

/// The binary PPM file for `img`.
pub open spec fn ppm_file(img: Image, policy: AlphaPolicy) -> Seq<u8> {
    seq![0x50u8, 0x36, 0x0a] + decimal_bytes(img.width as nat) + seq![0x20u8] + decimal_bytes(
        img.height as nat,
    ) + seq![0x0au8, 0x32, 0x35, 0x35, 0x0a] + ppm_pixels(img.pixels@, policy)
}

pub open spec fn count_non_opaque(px: Seq<Pixel>) -> int
    decreases px.len(),
{
    if px.len() == 0 {
        0
    } else {
        count_non_opaque(px.drop_last()) + if px.last().a != 255 { 1int } else { 0int }
    }
}

pub fn non_opaque(px: &Vec<Pixel>) -> (n: u64)
    ensures
        n == count_non_opaque(px@),
{
    let mut n: u64 = 0;
    let mut i: usize = 0;
    while i < px.len()
        invariant
            i <= px@.len(),
            n == count_non_opaque(px@.subrange(0, i as int)),
            n <= i,
        decreases px@.len() - i,
    {
        assert(px@.subrange(0, i + 1).drop_last() =~= px@.subrange(0, i as int));
        if px[i].a != 255 {
            n = n + 1;
        }
        i = i + 1;
    }
    assert(px@.subrange(0, i as int) =~= px@);
    n
}

/// Encodes `image` as binary PPM; translucency is refused, dropped or
/// composited over black as `policy` says.
pub fn encode_ppm(image: &Image, policy: AlphaPolicy) -> (r: Result<Encoded, Error>)
    ensures
        r is Err <==> (count_non_opaque(image.pixels@) > 0 && policy == AlphaPolicy::Reject),
        r matches Ok(e) ==> e.bytes@ == ppm_file(*image, policy) && e.channels == 3,
{
    let count = non_opaque(&image.pixels);
    if count > 0 && policy == AlphaPolicy::Reject {
        return Err(Error::AlphaNotRepresentable { non_opaque_pixels: count });
    }
    let mut out: Vec<u8> = Vec::new();
    out.push(0x50u8);
    out.push(0x36u8);
    out.push(0x0au8);
    push_decimal_bytes(&mut out, image.width as u64);
    out.push(0x20u8);
    push_decimal_bytes(&mut out, image.height as u64);
    out.push(0x0au8);
    out.push(0x32u8);
    out.push(0x35u8);
    out.push(0x35u8);
    out.push(0x0au8);
    let ghost head = out@;
    let mut i: usize = 0;
    while i < image.pixels.len()
        invariant
            i <= image.pixels@.len(),
            out@ == head + ppm_pixels(image.pixels@.subrange(0, i as int), policy),
        decreases image.pixels@.len() - i,
    {
        let p = image.pixels[i];
        let ghost before = out@;
        if policy == AlphaPolicy::CompositeBlack {
            let a = p.a as u16;
            assert(p.r as int * a as int <= 255 * 255 && p.g as int * a as int <= 255 * 255 && p.b as int * a as int <= 255 * 255) by (nonlinear_arith)
                requires
                    a <= 255,
            ;
            out.push(((p.r as u16 * a + 127) / 255) as u8);
            out.push(((p.g as u16 * a + 127) / 255) as u8);
            out.push(((p.b as u16 * a + 127) / 255) as u8);
        } else {
            out.push(p.r);
            out.push(p.g);
            out.push(p.b);
        }
        assert(image.pixels@.subrange(0, i + 1).drop_last() =~= image.pixels@.subrange(0, i as int));
        assert(out@ =~= before + ppm_pixel(p, policy));
        i = i + 1;
    }
    assert(image.pixels@.subrange(0, i as int) =~= image.pixels@);
    assert(out@ =~= ppm_file(*image, policy));
    let action: &'static str = if count == 0 {
        "not-present"
    } else if policy == AlphaPolicy::Discard {
        "discarded-explicitly"
    } else {
        "composited-black-explicitly"
    };
    Ok(Encoded { bytes: out, channels: 3, alpha_action: action })
}

pub open spec fn pam_pixel(p: Pixel, alpha: bool) -> Seq<u8> {
    seq![p.r, p.g, p.b] + if alpha { seq![p.a] } else { Seq::empty() }
}

pub open spec fn pam_pixels(px: Seq<Pixel>, alpha: bool) -> Seq<u8>
    decreases px.len(),
{
    if px.len() == 0 {
        Seq::empty()
    } else {
        pam_pixels(px.drop_last(), alpha) + pam_pixel(px.last(), alpha)
    }
}

/// `TUPLTYPE RGB` or `TUPLTYPE RGB_ALPHA`.
pub open spec fn tuple_name(alpha: bool) -> Seq<u8> {
    if alpha {
        seq![0x52u8, 0x47, 0x42, 0x5f, 0x41, 0x4c, 0x50, 0x48, 0x41]
    } else {
        seq![0x52u8, 0x47, 0x42]
    }
}

/// The PAM file for `img`.
pub open spec fn pam_file(img: Image) -> Seq<u8> {
    let alpha = has_alpha(img.pixels@);
    seq![0x50u8, 0x37, 0x0a, 0x57, 0x49, 0x44, 0x54, 0x48, 0x20] + decimal_bytes(img.width as nat)
        + seq![0x0au8, 0x48, 0x45, 0x49, 0x47, 0x48, 0x54, 0x20] + decimal_bytes(img.height as nat)
        + seq![0x0au8, 0x44, 0x45, 0x50, 0x54, 0x48, 0x20, if alpha { 0x34u8 } else { 0x33u8 }]
        + seq![0x0au8, 0x4d, 0x41, 0x58, 0x56, 0x41, 0x4c, 0x20, 0x32, 0x35, 0x35, 0x0a]
        + seq![0x54u8, 0x55, 0x50, 0x4c, 0x54, 0x59, 0x50, 0x45, 0x20] + tuple_name(alpha)
        + seq![0x0au8, 0x45, 0x4e, 0x44, 0x48, 0x44, 0x52, 0x0a] + pam_pixels(img.pixels@, alpha)
}

/// Encodes `image` as PAM (RGB, or RGB_ALPHA when some pixel is translucent).
pub fn encode_pam(image: &Image) -> (r: Result<Encoded, Error>)
    ensures
        r matches Ok(e) ==> e.bytes@ == pam_file(*image),
        r is Ok,
{
    let alpha = any_alpha(&image.pixels);
    let mut out: Vec<u8> = Vec::new();
    out.extend_from_slice(&[0x50u8, 0x37, 0x0a, 0x57, 0x49, 0x44, 0x54, 0x48, 0x20]);
    push_decimal_bytes(&mut out, image.width as u64);
    out.extend_from_slice(&[0x0au8, 0x48, 0x45, 0x49, 0x47, 0x48, 0x54, 0x20]);
    push_decimal_bytes(&mut out, image.height as u64);
    out.extend_from_slice(&[0x0au8, 0x44, 0x45, 0x50, 0x54, 0x48, 0x20]);
    out.push(if alpha { 0x34u8 } else { 0x33u8 });
    out.extend_from_slice(&[0x0au8, 0x4d, 0x41, 0x58, 0x56, 0x41, 0x4c, 0x20, 0x32, 0x35, 0x35, 0x0a]);
    out.extend_from_slice(&[0x54u8, 0x55, 0x50, 0x4c, 0x54, 0x59, 0x50, 0x45, 0x20]);
    if alpha {
        out.extend_from_slice(&[0x52u8, 0x47, 0x42, 0x5f, 0x41, 0x4c, 0x50, 0x48, 0x41]);
    } else {
        out.extend_from_slice(&[0x52u8, 0x47, 0x42]);
    }
    out.extend_from_slice(&[0x0au8, 0x45, 0x4e, 0x44, 0x48, 0x44, 0x52, 0x0a]);
    let ghost head = out@;
    let mut i: usize = 0;
    while i < image.pixels.len()
        invariant
            i <= image.pixels@.len(),
            out@ == head + pam_pixels(image.pixels@.subrange(0, i as int), alpha),
        decreases image.pixels@.len() - i,
    {
        let p = image.pixels[i];
        let ghost before = out@;
        out.push(p.r);
        out.push(p.g);
        out.push(p.b);
        if alpha {
            out.push(p.a);
        }
        assert(image.pixels@.subrange(0, i + 1).drop_last() =~= image.pixels@.subrange(0, i as int));
        assert(out@ =~= before + pam_pixel(p, alpha));
        i = i + 1;
    }
    assert(image.pixels@.subrange(0, i as int) =~= image.pixels@);
    assert(out@ =~= pam_file(*image));
    Ok(Encoded { bytes: out, channels: if alpha { 4 } else { 3 }, alpha_action: "preserved" })
}

fn sample_at(bytes: &[u8], pos: usize, wide: bool) -> (v: u16)
    requires
        pos + (if wide { 2int } else { 1int }) <= bytes@.len(),
    ensures
        v == (if wide {
            bytes@[pos as int] * 256 + bytes@[pos + 1]
        } else {
            bytes@[pos as int] as int
        }),
{
    if wide {
        bytes[pos] as u16 * 256 + bytes[pos + 1] as u16
    } else {
        bytes[pos] as u16
    }
}

/// Where the token after position `p` ends.
pub open spec fn after_token(b: Seq<u8>, p: int) -> int {
    token_end(b, skip_end(b, p))
}

/// Where `n` more text samples of at most `maxval` from `p` end, when they
/// are all there.
pub open spec fn text_samples_end(b: Seq<u8>, p: int, n: nat, maxval: int) -> Option<int>
    decreases n,
{
    if n == 0 {
        Some(p)
    } else {
        match next_number(b, p) {
            Some(v) => if v <= maxval {
                text_samples_end(b, after_token(b, p), (n - 1) as nat, maxval)
            } else {
                None
            },
            None => None,
        }
    }
}

/// Sample `i` of a binary raster at `base` for `maxval` (two bytes a
/// sample from 256 on).
pub open spec fn raster_sample(b: Seq<u8>, base: int, i: int, maxval: int) -> int {
    if maxval >= 256 {
        b[base + 2 * i] * 256 + b[base + 2 * i + 1]
    } else {
        b[base + i] as int
    }
}

/// The PPM header: whether it is `P3`, the width, height and maxval, and
/// where the maxval token ends, when the magic is `P6` or `P3`, maxval is 1
/// to 65535 (255 unless scaling is allowed) and there are 1 to `max_pixels`
/// pixels.
pub open spec fn ppm_header(b: Seq<u8>, max_pixels: int, allow_scaling: bool) -> Option<(bool, int, int, int, int)> {
    let ms = skip_end(b, 0);
    let me = token_end(b, ms);
    let e1 = after_token(b, me);
    let e2 = after_token(b, e1);
    if ms >= b.len() || !(b.subrange(ms, me) == seq![0x50u8, 0x36] || b.subrange(ms, me) == seq![0x50u8, 0x33]) {
        None
    } else {
        match (next_number(b, me), next_number(b, e1), next_number(b, e2)) {
            (Some(w), Some(h), Some(m)) => if w > u32::MAX || h > u32::MAX || m > u32::MAX || m < 1 || m > 65535 || (m
                != 255 && !allow_scaling) || w < 1 || h < 1 || w * h > max_pixels || w * h > usize::MAX || 3 * (w
                * h) > usize::MAX {
                None
            } else {
                Some((b.subrange(ms, me) == seq![0x50u8, 0x33], w as int, h as int, m as int, after_token(b, e2)))
            },
            _ => None,
        }
    }
}

/// Where a binary raster starts after the separator at `e3`: one
/// whitespace byte, or CR LF.
pub open spec fn raster_base(b: Seq<u8>, e3: int) -> int {
    if e3 + 1 < b.len() && b[e3] == 0x0d && b[e3 + 1] == 0x0a {
        e3 + 2
    } else {
        e3 + 1
    }
}

/// Whether `n` binary samples of at most `maxval` follow the separator at
/// `e3` (one whitespace byte, or CR LF), with nothing after them when
/// `strict`.
pub open spec fn raster_ok(b: Seq<u8>, e3: int, n: int, maxval: int, strict: bool) -> bool {
    let len = b.len() as int;
    let wide = maxval >= 256;
    let sb: int = if wide { 2 } else { 1 };
    let base = raster_base(b, e3);
    &&& e3 < len && is_space(b[e3])
    &&& n * sb <= usize::MAX
    &&& n * sb <= len - base
    &&& forall|i: int| 0 <= i < n ==> #[trigger] raster_sample(b, raster_base(b, e3), i, maxval) <= maxval
    &&& strict ==> base + n * sb == len
}

/// Whether `n` text samples of at most `maxval` follow at `e3`, with only
/// whitespace and comments after them when `strict`.
pub open spec fn text_ok(b: Seq<u8>, e3: int, n: int, maxval: int, strict: bool) -> bool {
    text_samples_end(b, e3, n as nat, maxval) matches Some(end) && (strict ==> skip_end(b, end) == b.len())
}

/// Whether `b` is a PPM that decodes: the header, then every sample.
pub open spec fn ppm_accepts(b: Seq<u8>, max_pixels: int, strict: bool, allow_scaling: bool) -> bool {
    match ppm_header(b, max_pixels, allow_scaling) {
        Some((p3, w, h, m, e3)) => if p3 {
            text_ok(b, e3, 3 * (w * h), m, strict)
        } else {
            raster_ok(b, e3, 3 * (w * h), m, strict)
        },
        None => false,
    }
}

/// Where the search for text token `i` after `p` starts: past the `i`
/// tokens before it.
pub open spec fn token_pos(b: Seq<u8>, p: int, i: nat) -> int
    decreases i,
{
    if i == 0 {
        p
    } else {
        after_token(b, token_pos(b, p, (i - 1) as nat))
    }
}

/// Sample `j` of a PPM (text when `p3`) whose maxval `m` ends at `e3`.
pub open spec fn ppm_sample(b: Seq<u8>, p3: bool, e3: int, m: int, j: int) -> int {
    if p3 {
        next_number(b, token_pos(b, e3, j as nat))->0 as int
    } else {
        raster_sample(b, raster_base(b, e3), j, m)
    }
}

/// Pixel `k` of such a PPM: its three samples rescaled to eight bits, opaque.
pub open spec fn ppm_decoded(b: Seq<u8>, p3: bool, e3: int, m: int, k: int) -> Pixel {
    Pixel {
        r: scaled_sample(ppm_sample(b, p3, e3, m, 3 * k), m) as u8,
        g: scaled_sample(ppm_sample(b, p3, e3, m, 3 * k + 1), m) as u8,
        b: scaled_sample(ppm_sample(b, p3, e3, m, 3 * k + 2), m) as u8,
        a: 255,
    }
}

/// Decodes a PPM (`P6` binary or `P3` text).
#[verifier::spinoff_prover]
#[verifier::rlimit(100)]
pub fn decode_ppm(bytes: &[u8], options: &Options) -> (r: Result<Image, Error>)
    ensures
        r matches Ok(img) ==> img.pixels@.len() == img.width * img.height && img.width
            * img.height <= options.max_pixels,
        r matches Ok(img) ==> match ppm_header(bytes@, options.max_pixels as int, options.allow_sample_scaling) {
            Some((p3, w, h, m, e3)) => img.width == w && img.height == h && forall|k: int|
                0 <= k < w * h ==> img.pixels@[k] == #[trigger] ppm_decoded(bytes@, p3, e3, m, k),
            None => false,
        },
        r is Ok <==> ppm_accepts(bytes@, options.max_pixels as int, options.strict_trailing_data, options.allow_sample_scaling),
{
    let len = bytes.len();
    let mut cursor = TokenCursor { pos: 0 };
    let (ms, me) = match cursor.token(bytes, "PPM magic") {
        Ok(v) => v,
        Err(e) => return Err(e),
    };
    let is_p6 = me - ms == 2 && bytes[ms] == 0x50 && bytes[ms + 1] == 0x36;
    let is_p3 = me - ms == 2 && bytes[ms] == 0x50 && bytes[ms + 1] == 0x33;
    proof {
        let mg = bytes@.subrange(ms as int, me as int);
        if is_p6 {
            assert(mg =~= seq![0x50u8, 0x36]);
        }
        if is_p3 {
            assert(mg =~= seq![0x50u8, 0x33]);
        }
        if mg == seq![0x50u8, 0x36] || mg == seq![0x50u8, 0x33] {
            assert(mg.len() == 2);
            assert(me - ms == 2);
            assert(mg[0] == bytes@[ms as int]);
            assert(mg[1] == bytes@[ms + 1]);
        }
        if mg == seq![0x50u8, 0x36] && mg == seq![0x50u8, 0x33] {
            assert(mg[1] == 0x36u8 && mg[1] == 0x33u8);
        }
    }
    if !is_p6 && !is_p3 {
        return Err(Error::InvalidSignature("PPM"));
    }
    let width = match cursor.number(bytes, "PPM width") {
        Ok(v) => v,
        Err(e) => return Err(e),
    };
    let height = match cursor.number(bytes, "PPM height") {
        Ok(v) => v,
        Err(e) => return Err(e),
    };
    let maxval_u32 = match cursor.number(bytes, "PPM maxval") {
        Ok(v) => v,
        Err(e) => return Err(e),
    };
    if maxval_u32 == 0 || maxval_u32 > 65535 {
        return Err(Error::InvalidHeader("PPM maxval must be 1..65535"));
    }
    let maxval = maxval_u32 as u16;
    if maxval != 255 && !options.allow_sample_scaling {
        return Err(Error::Unsupported("PPM MAXVAL other than 255 requires allow_sample_scaling"));
    }
    let count = match checked_pixels(width, height, options) {
        Ok(c) => c,
        Err(e) => return Err(e),
    };
    proof {
        super::bmp::lemma_div_bound(count as int, usize::MAX as int, 3);
    }
    if count > usize::MAX / 3 {
        return Err(Error::IntegerOverflow("PPM samples"));
    }
    let samples = count * 3;
    let mut pixels: Vec<Pixel> = Vec::new();
    let ghost e3 = cursor.pos as int;
    let ghost strict = options.strict_trailing_data;
    assert(ppm_header(bytes@, options.max_pixels as int, options.allow_sample_scaling) == Some(
        (is_p3, width as int, height as int, maxval as int, e3),
    ));
    let ghost acc = ppm_accepts(bytes@, options.max_pixels as int, strict, options.allow_sample_scaling);
    if is_p3 {
        let mut k: usize = 0;
        assert(acc == text_ok(bytes@, e3, samples as int, maxval as int, strict));
        while k < count
            invariant
                k <= count,
                pixels@.len() == k,
                cursor.pos <= len,
                len == bytes@.len(),
                1 <= maxval,
                maxval == maxval_u32,
                samples == 3 * count,
                strict == options.strict_trailing_data,
                acc == ppm_accepts(bytes@, options.max_pixels as int, strict, options.allow_sample_scaling),
                acc == text_ok(bytes@, e3, samples as int, maxval as int, strict),
                text_samples_end(bytes@, e3, samples as nat, maxval as int) == text_samples_end(
                    bytes@,
                    cursor.pos as int,
                    (3 * (count - k)) as nat,
                    maxval as int,
                ),
                cursor.pos == token_pos(bytes@, e3, (3 * k) as nat),
                forall|j: int| 0 <= j < k ==> pixels@[j] == #[trigger] ppm_decoded(bytes@, true, e3, maxval as int, j),
            decreases count - k,
        {
            let ghost p0 = cursor.pos as int;
            let ghost n = (3 * (count - k)) as nat;
            let r = match cursor.number(bytes, "PPM red sample") {
                Ok(v) => v,
                Err(e) => {
                    return Err(e);
                },
            };
            let ghost p1 = cursor.pos as int;
            let g = match cursor.number(bytes, "PPM green sample") {
                Ok(v) => v,
                Err(e) => {
                    proof {
                        if r as int <= maxval {
                            assert(text_samples_end(bytes@, p0, n, maxval as int) == text_samples_end(bytes@, p1, (n - 1) as nat, maxval as int));
                        }
                    }
                    return Err(e);
                },
            };
            let ghost p2 = cursor.pos as int;
            let b = match cursor.number(bytes, "PPM blue sample") {
                Ok(v) => v,
                Err(e) => {
                    proof {
                        if r as int <= maxval && g as int <= maxval {
                            assert(text_samples_end(bytes@, p0, n, maxval as int) == text_samples_end(bytes@, p1, (n - 1) as nat, maxval as int));
                            assert(text_samples_end(bytes@, p1, (n - 1) as nat, maxval as int) == text_samples_end(bytes@, p2, (n - 2) as nat, maxval as int));
                        }
                    }
                    return Err(e);
                },
            };
            proof {
                if r as int <= maxval {
                    assert(text_samples_end(bytes@, p0, n, maxval as int) == text_samples_end(bytes@, p1, (n - 1) as nat, maxval as int));
                    if g as int <= maxval {
                        assert(text_samples_end(bytes@, p1, (n - 1) as nat, maxval as int) == text_samples_end(bytes@, p2, (n - 2) as nat, maxval as int));
                        if b as int <= maxval {
                            assert(text_samples_end(bytes@, p2, (n - 2) as nat, maxval as int) == text_samples_end(bytes@, cursor.pos as int, (n - 3) as nat, maxval as int));
                        }
                    }
                }
            }
            if r > maxval_u32 || g > maxval_u32 || b > maxval_u32 {
                return Err(Error::InvalidHeader("PPM sample exceeds maxval"));
            }
            assert(p1 == token_pos(bytes@, e3, (3 * k + 1) as nat));
            assert(p2 == token_pos(bytes@, e3, (3 * k + 2) as nat));
            assert(cursor.pos == token_pos(bytes@, e3, (3 * k + 3) as nat));
            let ghost before = pixels@;
            pixels.push(
                Pixel {
                    r: scale_sample(r as u16, maxval),
                    g: scale_sample(g as u16, maxval),
                    b: scale_sample(b as u16, maxval),
                    a: 255,
                },
            );
            assert(forall|j: int| 0 <= j < k ==> pixels@[j] == before[j]);
            k = k + 1;
        }
        assert(text_samples_end(bytes@, e3, samples as nat, maxval as int) == Some(cursor.pos as int));
        cursor.skip(bytes);
        if options.strict_trailing_data && cursor.pos != len {
            return Err(Error::TrailingData { bytes: len - cursor.pos });
        }
    } else {
        assert(acc == raster_ok(bytes@, e3, samples as int, maxval as int, strict));
        if cursor.pos >= len {
            return Err(Error::Truncated("PPM raster separator"));
        }
        let separator = bytes[cursor.pos];
        if !space(separator) {
            return Err(Error::InvalidHeader("PPM maxval lacks raster separator"));
        }
        cursor.pos = cursor.pos + 1;
        if separator == 0x0d && cursor.pos < len && bytes[cursor.pos] == 0x0a {
            cursor.pos = cursor.pos + 1;
        }
        let wide = maxval >= 256;
        let sample_bytes: usize = if wide { 2 } else { 1 };
        proof {
            super::bmp::lemma_div_bound(samples as int, usize::MAX as int, sample_bytes as int);
        }
        if samples > usize::MAX / sample_bytes {
            return Err(Error::IntegerOverflow("PPM raster"));
        }
        let raster_len = samples * sample_bytes;
        if raster_len > len - cursor.pos {
            return Err(Error::Truncated("PPM raster"));
        }
        let base = cursor.pos;
        let mut k: usize = 0;
        assert(base as int == raster_base(bytes@, e3));
        assert(wide == (maxval as int >= 256));
        proof {
            if acc {
                assert(raster_ok(bytes@, e3, samples as int, maxval as int, strict));
            }
        }
        assert(acc ==> forall|i: int| 0 <= i < samples ==> #[trigger] raster_sample(bytes@, base as int, i, maxval as int) <= maxval);
        while k < count
            invariant
                k <= count,
                pixels@.len() == k,
                samples == count * 3,
                raster_len == samples * sample_bytes,
                base + raster_len <= len,
                len == bytes@.len(),
                sample_bytes == (if wide { 2usize } else { 1usize }),
                1 <= maxval,
                wide == (maxval >= 256),
                strict == options.strict_trailing_data,
                acc == ppm_accepts(bytes@, options.max_pixels as int, strict, options.allow_sample_scaling),
                acc ==> forall|i: int| 0 <= i < samples ==> #[trigger] raster_sample(bytes@, base as int, i, maxval as int) <= maxval,
                forall|i: int| 0 <= i < 3 * k ==> #[trigger] raster_sample(bytes@, base as int, i, maxval as int) <= maxval,
                base == raster_base(bytes@, e3),
                forall|j: int| 0 <= j < k ==> pixels@[j] == #[trigger] ppm_decoded(bytes@, false, e3, maxval as int, j),
            decreases count - k,
        {
            assert(base + (k * 3 + 3) * sample_bytes <= base + raster_len) by (nonlinear_arith)
                requires
                    k < count,
                    raster_len == count * 3 * sample_bytes,
            ;
            let at = base + k * 3 * sample_bytes;
            assert(at + 3 * sample_bytes <= len) by (nonlinear_arith)
                requires
                    at == base + k * 3 * sample_bytes,
                    base + (k * 3 + 3) * sample_bytes <= len,
            ;
            let r = sample_at(bytes, at, wide);
            let g = sample_at(bytes, at + sample_bytes, wide);
            let b = sample_at(bytes, at + 2 * sample_bytes, wide);
            proof {
                if wide {
                    assert(at == base + 2 * (3 * k));
                } else {
                    assert(at == base + 3 * k);
                }
                assert(r == raster_sample(bytes@, base as int, 3 * k, maxval as int));
                assert(g == raster_sample(bytes@, base as int, 3 * k + 1, maxval as int));
                assert(b == raster_sample(bytes@, base as int, 3 * k + 2, maxval as int));
            }
            if r > maxval || g > maxval || b > maxval {
                return Err(Error::InvalidHeader("PPM sample exceeds maxval"));
            }
            let ghost before = pixels@;
            pixels.push(
                Pixel {
                    r: scale_sample(r, maxval),
                    g: scale_sample(g, maxval),
                    b: scale_sample(b, maxval),
                    a: 255,
                },
            );
            assert(forall|j: int| 0 <= j < k ==> pixels@[j] == before[j]);
            k = k + 1;
        }
        let end = base + raster_len;
        if options.strict_trailing_data && end != len {
            return Err(Error::TrailingData { bytes: len - end });
        }
    }
    let mut warnings: Vec<String> = Vec::new();
    if maxval != 255 {
        warnings.push(crate::text::message("PPM maxval ", maxval as u64, " normalized to 8-bit code values"));
    }
    Ok(Image { width, height, source_channels: 3, pixels, warnings })
}

/// The bytes `char::is_whitespace` accepts among ASCII.
pub open spec fn is_trim_space(b: u8) -> bool {
    b == 0x20 || b == 0x09 || b == 0x0a || b == 0x0b || b == 0x0c || b == 0x0d
}

fn trim_space(b: u8) -> (r: bool)
    ensures
        r == is_trim_space(b),
{
    b == 0x20 || b == 0x09 || b == 0x0a || b == 0x0b || b == 0x0c || b == 0x0d
}

/// Whether `b[start..end]` spells `word`.
fn is_word(b: &[u8], start: usize, end: usize, word: &[u8]) -> (r: bool)
    requires
        start <= end <= b@.len(),
    ensures
        r == (b@.subrange(start as int, end as int) == word@),
{
    if end - start != word.len() {
        return false;
    }
    let mut k: usize = 0;
    while k < word.len()
        invariant
            k <= word@.len(),
            end - start == word@.len(),
            end <= b@.len(),
            forall|j: int| 0 <= j < k ==> b@[start + j] == word@[j],
        decreases word@.len() - k,
    {
        if b[start + k] != word[k] {
            assert(b@.subrange(start as int, end as int)[k as int] != word@[k as int]);
            return false;
        }
        k = k + 1;
    }
    assert(b@.subrange(start as int, end as int) =~= word@);
    true
}

/// The whitespace-separated words of `b[start..end]`.
fn words(b: &[u8], start: usize, end: usize) -> (w: Vec<(usize, usize)>)
    requires
        start <= end <= b@.len(),
    ensures
        forall|i: int| 0 <= i < w@.len() ==> start <= #[trigger] w@[i].0 < w@[i].1 <= end,
{
    let mut out: Vec<(usize, usize)> = Vec::new();
    let mut i = start;
    while i < end
        invariant
            start <= i <= end,
            end <= b@.len(),
            forall|k: int| 0 <= k < out@.len() ==> start <= #[trigger] out@[k].0 < out@[k].1 <= end,
        decreases end - i,
    {
        if space(b[i]) {
            i = i + 1;
        } else {
            let s = i;
            while i < end && !space(b[i])
                invariant
                    s < i <= end || (s == i && i < end),
                    end <= b@.len(),
                decreases end - i,
            {
                i = i + 1;
            }
            out.push((s, i));
        }
    }
    out
}

/// Decodes a PAM (`P7`) image of depth 1 to 4.
pub fn decode_pam(bytes: &[u8], options: &Options) -> (r: Result<Image, Error>)
    ensures
        r matches Ok(img) ==> img.pixels@.len() == img.width * img.height && img.width
            * img.height <= options.max_pixels,
{
    let len = bytes.len();
    if len < 3 || bytes[0] != 0x50 || bytes[1] != 0x37 || bytes[2] != 0x0a {
        return Err(Error::InvalidSignature("PAM"));
    }
    let mut pos: usize = 3;
    let mut width: Option<u32> = None;
    let mut height: Option<u32> = None;
    let mut depth: Option<u32> = None;
    let mut maxval: Option<u32> = None;
    let mut tuple: Vec<u8> = Vec::new();
    let mut has_tuple = false;
    loop
        invariant
            pos <= len,
            len == bytes@.len(),
            maxval matches Some(v) ==> v <= 65535,
        decreases len - pos,
    {
        let mut line_end = pos;
        while line_end < len && bytes[line_end] != 0x0a
            invariant
                pos <= line_end <= len,
                len == bytes@.len(),
            decreases len - line_end,
        {
            line_end = line_end + 1;
        }
        if line_end >= len {
            return Err(Error::Truncated("PAM header line"));
        }
        let line_start = pos;
        pos = line_end + 1;
        let mut k = line_start;
        while k < line_end
            invariant
                line_start <= k <= line_end,
                line_end < len,
                len == bytes@.len(),
            decreases line_end - k,
        {
            if bytes[k] >= 0x80 {
                return Err(Error::InvalidHeader("non-ASCII PAM header"));
            }
            k = k + 1;
        }
        let mut ts = line_start;
        while ts < line_end && trim_space(bytes[ts])
            invariant
                line_start <= ts <= line_end,
                line_end < len,
                len == bytes@.len(),
            decreases line_end - ts,
        {
            ts = ts + 1;
        }
        let mut te = line_end;
        while te > ts && trim_space(bytes[te - 1])
            invariant
                ts <= te <= line_end,
                line_end < len,
                len == bytes@.len(),
            decreases te,
        {
            te = te - 1;
        }
        if ts == te || bytes[ts] == 0x23 {
            continue;
        }
        if is_word(bytes, ts, te, &[0x45u8, 0x4e, 0x44, 0x48, 0x44, 0x52]) {
            break;
        }
        let parts = words(bytes, ts, te);
        if parts.len() == 0 {
            return Err(Error::InvalidHeader("empty PAM header field"));
        }
        let (ks, ke) = parts[0];
        let rest = parts.len() - 1;
        if is_word(bytes, ks, ke, &[0x57u8, 0x49, 0x44, 0x54, 0x48]) {
            if width.is_some() || rest != 1 {
                return Err(Error::InvalidHeader("duplicate or invalid PAM WIDTH"));
            }
            let (vs, ve) = parts[1];
            width = match parse_u32(bytes, vs, ve, 0xFFFF_FFFF) {
                Ok(v) => Some(v),
                Err(_) => return Err(Error::InvalidHeader("invalid PAM WIDTH")),
            };
        } else if is_word(bytes, ks, ke, &[0x48u8, 0x45, 0x49, 0x47, 0x48, 0x54]) {
            if height.is_some() || rest != 1 {
                return Err(Error::InvalidHeader("duplicate or invalid PAM HEIGHT"));
            }
            let (vs, ve) = parts[1];
            height = match parse_u32(bytes, vs, ve, 0xFFFF_FFFF) {
                Ok(v) => Some(v),
                Err(_) => return Err(Error::InvalidHeader("invalid PAM HEIGHT")),
            };
        } else if is_word(bytes, ks, ke, &[0x44u8, 0x45, 0x50, 0x54, 0x48]) {
            if depth.is_some() || rest != 1 {
                return Err(Error::InvalidHeader("duplicate or invalid PAM DEPTH"));
            }
            let (vs, ve) = parts[1];
            depth = match parse_u32(bytes, vs, ve, 255) {
                Ok(v) => Some(v),
                Err(_) => return Err(Error::InvalidHeader("invalid PAM DEPTH")),
            };
        } else if is_word(bytes, ks, ke, &[0x4du8, 0x41, 0x58, 0x56, 0x41, 0x4c]) {
            if maxval.is_some() || rest != 1 {
                return Err(Error::InvalidHeader("duplicate or invalid PAM MAXVAL"));
            }
            let (vs, ve) = parts[1];
            maxval = match parse_u32(bytes, vs, ve, 65535) {
                Ok(v) => Some(v),
                Err(_) => return Err(Error::InvalidHeader("invalid PAM MAXVAL")),
            };
        } else if is_word(bytes, ks, ke, &[0x54u8, 0x55, 0x50, 0x4c, 0x54, 0x59, 0x50, 0x45]) {
            if rest == 0 {
                return Err(Error::InvalidHeader("empty PAM TUPLTYPE"));
            }
            let mut w: usize = 1;
            while w < parts.len()
                invariant
                    1 <= w <= parts@.len(),
                    forall|i: int| 0 <= i < parts@.len() ==> ts <= #[trigger] parts@[i].0 < parts@[i].1 <= te,
                    te <= len,
                    len == bytes@.len(),
                decreases parts@.len() - w,
            {
                if has_tuple {
                    tuple.push(0x20u8);
                }
                let (s0, e0) = parts[w];
                crate::bytes::push_range(&mut tuple, bytes, s0, e0 - s0);
                has_tuple = true;
                w = w + 1;
            }
        } else {
            return Err(Error::Unsupported("unknown PAM header field"));
        }
    }
    let width = match width {
        Some(v) => v,
        None => return Err(Error::InvalidHeader("missing PAM WIDTH")),
    };
    let height = match height {
        Some(v) => v,
        None => return Err(Error::InvalidHeader("missing PAM HEIGHT")),
    };
    let depth = match depth {
        Some(v) => v,
        None => return Err(Error::InvalidHeader("missing PAM DEPTH")),
    };
    let maxval = match maxval {
        Some(v) => v,
        None => return Err(Error::InvalidHeader("missing PAM MAXVAL")),
    };
    if depth < 1 || depth > 4 {
        return Err(Error::Unsupported("PAM depth outside 1..4 visual tuples"));
    }
    if maxval == 0 {
        return Err(Error::InvalidHeader("PAM MAXVAL must be non-zero"));
    }
    if maxval != 255 && !options.allow_sample_scaling {
        return Err(Error::Unsupported("PAM MAXVAL other than 255 requires allow_sample_scaling"));
    }
    if has_tuple {
        let t = tuple.as_slice();
        let n = t.len();
        let allowed = (depth == 1 && (is_word(t, 0, n, &[0x42u8, 0x4c, 0x41, 0x43, 0x4b, 0x41, 0x4e, 0x44, 0x57, 0x48, 0x49, 0x54, 0x45]) || is_word(t, 0, n, &[0x47u8, 0x52, 0x41, 0x59, 0x53, 0x43, 0x41, 0x4c, 0x45])))
            || (depth == 2 && is_word(t, 0, n, &[0x47u8, 0x52, 0x41, 0x59, 0x53, 0x43, 0x41, 0x4c, 0x45, 0x5f, 0x41, 0x4c, 0x50, 0x48, 0x41]))
            || (depth == 3 && is_word(t, 0, n, &[0x52u8, 0x47, 0x42]))
            || (depth == 4 && is_word(t, 0, n, &[0x52u8, 0x47, 0x42, 0x5f, 0x41, 0x4c, 0x50, 0x48, 0x41]));
        if !allowed {
            return Err(Error::Unsupported("PAM tuple type/depth combination"));
        }
    }
    let count = match checked_pixels(width, height, options) {
        Ok(c) => c,
        Err(e) => return Err(e),
    };
    let wide = maxval >= 256;
    let sample_bytes: usize = if wide { 2 } else { 1 };
    let d = depth as usize;
    if count > usize::MAX / d {
        return Err(Error::IntegerOverflow("PAM raster"));
    }
    assert(count * d <= usize::MAX) by (nonlinear_arith)
        requires
            count <= usize::MAX as int / d as int,
            d >= 1,
    ;
    if count * d > usize::MAX / sample_bytes {
        return Err(Error::IntegerOverflow("PAM raster"));
    }
    assert(count * d * sample_bytes <= usize::MAX) by (nonlinear_arith)
        requires
            count * d <= usize::MAX as int / sample_bytes as int,
            sample_bytes >= 1,
    ;
    let raster_len = count * d * sample_bytes;
    if raster_len > len - pos {
        return Err(Error::Truncated("PAM raster"));
    }
    let m = maxval as u16;
    let mut pixels: Vec<Pixel> = Vec::new();
    let mut k: usize = 0;
    while k < count
        invariant
            k <= count,
            pixels@.len() == k,
            1 <= d <= 4,
            raster_len == count * d * sample_bytes,
            pos + raster_len <= len,
            len == bytes@.len(),
            sample_bytes == (if wide { 2usize } else { 1usize }),
            1 <= m,
            m == maxval,
        decreases count - k,
    {
        assert(pos + (k * d + d) * sample_bytes <= pos + raster_len) by (nonlinear_arith)
            requires
                k < count,
                raster_len == count * d * sample_bytes,
        ;
        let at = pos + k * d * sample_bytes;
        let mut t: [u8; 4] = [0u8; 4];
        let mut c: usize = 0;
        while c < d
            invariant
                c <= d,
                d <= 4,
                at + d * sample_bytes <= len,
                len == bytes@.len(),
                sample_bytes == (if wide { 2usize } else { 1usize }),
                1 <= m,
            decreases d - c,
        {
            assert(at + c * sample_bytes + sample_bytes <= len) by (nonlinear_arith)
                requires
                    c < d,
                    at + d * sample_bytes <= len,
            ;
            let v = sample_at(bytes, at + c * sample_bytes, wide);
            if v > m {
                return Err(Error::InvalidHeader("PAM sample exceeds MAXVAL"));
            }
            t[c] = scale_sample(v, m);
            c = c + 1;
        }
        pixels.push(
            if d == 1 {
                Pixel { r: t[0], g: t[0], b: t[0], a: 255 }
            } else if d == 2 {
                Pixel { r: t[0], g: t[0], b: t[0], a: t[1] }
            } else if d == 3 {
                Pixel { r: t[0], g: t[1], b: t[2], a: 255 }
            } else {
                Pixel { r: t[0], g: t[1], b: t[2], a: t[3] }
            },
        );
        k = k + 1;
    }
    let end = pos + raster_len;
    if options.strict_trailing_data && end != len {
        return Err(Error::TrailingData { bytes: len - end });
    }
    let mut warnings: Vec<String> = Vec::new();
    if maxval != 255 {
        warnings.push(crate::text::message("PAM maxval ", maxval as u64, " normalized to 8-bit code values"));
    }
    Ok(Image { width, height, source_channels: depth as u8, pixels, warnings })
}

} // verus!
