//! PNG validation and pixel-grid operations on the native PNG codec.
//!
//! The capsule is built for one operation (`OPERATION`). `Validate` copies a
//! PNG that decodes cleanly; the others decode, transform the pixel grid and
//! re-encode canonically. The whole source is checked before any byte is
//! committed to the output.
use vstd::prelude::*;
use crate::png_codec::{self, DecodeOptions, Image, Pixel16, header_of, encoded, encodable};

verus! {

#[derive(Debug, Clone, Copy, PartialEq, Eq, Structural)]
pub enum Operation {
    Validate,
    Normalize,
    Crop,
    Pad,
    FlipHorizontal,
    FlipVertical,
    Rotate90,
    Rotate180,
    Rotate270,
    AlphaPremultiply,
    AlphaUnpremultiply,
}

/// The operation this capsule performs.
pub const OPERATION: Operation = Operation::Validate;

#[derive(Debug, Clone, Copy, PartialEq, Eq, Structural)]
pub enum FilterStrategy {
    NoFilter,
    Sub,
    Up,
    Average,
    Paeth,
    Adaptive,
}

#[derive(Debug, Clone, Copy, PartialEq, Eq)]
pub struct Background {
    pub red: u16,
    pub green: u16,
    pub blue: u16,
    pub alpha: u16,
}

impl Default for Background {
    fn default() -> (b: Self)
        ensures
            b.red == 0 && b.green == 0 && b.blue == 0 && b.alpha == 0,
    {
        Background { red: 0, green: 0, blue: 0, alpha: 0 }
    }
}

#[derive(Debug, Clone, PartialEq, Eq)]
pub struct Options {
    pub max_pixels: u64,
    pub max_input_bytes: u64,
    pub max_inflate_bytes: u64,
    pub strict_crc: bool,
    pub strict_trailing_data: bool,
    pub filter: FilterStrategy,
    /// A zero width/height means the remaining source extent.
    pub crop_x: u32,
    pub crop_y: u32,
    pub crop_width: u32,
    pub crop_height: u32,
    pub pad_left: u32,
    pub pad_right: u32,
    pub pad_top: u32,
    pub pad_bottom: u32,
    pub background: Background,
}

impl Default for Options {
    fn default() -> (o: Self)
        ensures
            o.max_pixels == 100_000_000,
            o.max_input_bytes == 512 * 1024 * 1024,
            o.max_inflate_bytes == 1024 * 1024 * 1024,
            o.strict_crc,
            o.strict_trailing_data,
            o.filter == FilterStrategy::Adaptive,
            o.crop_x == 0 && o.crop_y == 0 && o.crop_width == 0 && o.crop_height == 0,
            o.pad_left == 0 && o.pad_right == 0 && o.pad_top == 0 && o.pad_bottom == 0,
            o.background == (Background { red: 0, green: 0, blue: 0, alpha: 0 }),
    {
        Options {
            max_pixels: 100_000_000,
            max_input_bytes: 536_870_912,
            max_inflate_bytes: 1_073_741_824,
            strict_crc: true,
            strict_trailing_data: true,
            filter: FilterStrategy::Adaptive,
            crop_x: 0,
            crop_y: 0,
            crop_width: 0,
            crop_height: 0,
            pad_left: 0,
            pad_right: 0,
            pad_top: 0,
            pad_bottom: 0,
            background: Background::default(),
        }
    }
}

#[derive(Debug, Clone, PartialEq, Eq)]
pub struct Report {
    pub input_bytes: u64,
    pub output_bytes: u64,
    pub source_width: u32,
    pub source_height: u32,
    pub width: u32,
    pub height: u32,
    pub pixels: u64,
    pub source_color_type: u8,
    pub source_bit_depth: u8,
    pub source_interlaced: bool,
    pub target_bit_depth: u8,
    pub operation: &'static str,
    pub strategy: &'static str,
    pub backend: &'static str,
    pub peak_working_memory_bytes: u64,
    pub warnings: Vec<String>,
}

#[derive(Debug)]
pub enum Error {
    InvalidOptions(&'static str),
    InputTooLarge { bytes: u64, limit: u64 },
    PixelLimitExceeded { pixels: u64, limit: u64 },
    InvalidInput(String),
    IntegerOverflow(&'static str),
}

pub fn filter(value: FilterStrategy) -> (f: png_codec::Filter)
    ensures
        f == filter_spec(value),
{
    match value {
        FilterStrategy::NoFilter => png_codec::Filter::NoFilter,
        FilterStrategy::Sub => png_codec::Filter::Sub,
        FilterStrategy::Up => png_codec::Filter::Up,
        FilterStrategy::Average => png_codec::Filter::Average,
        FilterStrategy::Paeth => png_codec::Filter::Paeth,
        FilterStrategy::Adaptive => png_codec::Filter::Adaptive,
    }
}

/// The name of an operation, as reports spell it.
pub open spec fn operation_label(op: Operation) -> &'static str {
    match op {
        Operation::Validate => "validate",
        Operation::Normalize => "normalize",
        Operation::Crop => "crop",
        Operation::Pad => "pad",
        Operation::FlipHorizontal => "flip-horizontal",
        Operation::FlipVertical => "flip-vertical",
        Operation::Rotate90 => "rotate-90-clockwise",
        Operation::Rotate180 => "rotate-180",
        Operation::Rotate270 => "rotate-270-clockwise",
        Operation::AlphaPremultiply => "alpha-premultiply",
        Operation::AlphaUnpremultiply => "alpha-unpremultiply",
    }
}

pub fn operation_name() -> (r: &'static str)
    ensures
        r == operation_label(OPERATION),
{
    match OPERATION {
        Operation::Validate => "validate",
        Operation::Normalize => "normalize",
        Operation::Crop => "crop",
        Operation::Pad => "pad",
        Operation::FlipHorizontal => "flip-horizontal",
        Operation::FlipVertical => "flip-vertical",
        Operation::Rotate90 => "rotate-90-clockwise",
        Operation::Rotate180 => "rotate-180",
        Operation::Rotate270 => "rotate-270-clockwise",
        Operation::AlphaPremultiply => "alpha-premultiply",
        Operation::AlphaUnpremultiply => "alpha-unpremultiply",
    }
}

/// The pixel count of a `width` by `height` target, within the limit.
fn checked_target(width: u32, height: u32, options: &Options) -> (r: Result<usize, Error>)
    ensures
        r matches Ok(n) ==> n == width * height && 1 <= width && 1 <= height && n
            <= options.max_pixels,
        r is Ok <==> (1 <= width && 1 <= height && width * height <= options.max_pixels
            && width * height <= usize::MAX),
{
    if width == 0 || height == 0 {
        return Err(Error::InvalidOptions("target dimensions must be non-zero"));
    }
    assert(width as int * height as int <= 0xFFFF_FFFF * 0xFFFF_FFFF) by (nonlinear_arith)
        requires
            width <= 0xFFFF_FFFF,
            height <= 0xFFFF_FFFF,
    ;
    let pixels = width as u64 * height as u64;
    if pixels > options.max_pixels {
        return Err(Error::PixelLimitExceeded { pixels, limit: options.max_pixels });
    }
    if pixels > usize::MAX as u64 {
        return Err(Error::IntegerOverflow("target pixel allocation"));
    }
    Ok(pixels as usize)
}

/// Row `r` of a `w`-wide grid.
pub open spec fn row(px: Seq<Pixel16>, w: int, r: int) -> Seq<Pixel16> {
    px.subrange(r * w, r * w + w)
}

/// The `cw`-wide window at column `x` of rows `y..y + n`.
pub open spec fn cropped(px: Seq<Pixel16>, w: int, x: int, y: int, cw: int, n: nat) -> Seq<Pixel16>
    decreases n,
{
    if n == 0 {
        Seq::empty()
    } else {
        cropped(px, w, x, y, cw, (n - 1) as nat) + px.subrange(
            (y + n - 1) * w + x,
            (y + n - 1) * w + x + cw,
        )
    }
}

/// Rows `0..n`, each reversed.
pub open spec fn mirrored(px: Seq<Pixel16>, w: int, n: nat) -> Seq<Pixel16>
    decreases n,
{
    if n == 0 {
        Seq::empty()
    } else {
        mirrored(px, w, (n - 1) as nat) + row(px, w, n - 1).reverse()
    }
}

/// The last `n` rows of an `h`-row grid, bottom row first.
pub open spec fn flipped(px: Seq<Pixel16>, w: int, h: int, n: nat) -> Seq<Pixel16>
    decreases n,
{
    if n == 0 {
        Seq::empty()
    } else {
        flipped(px, w, h, (n - 1) as nat) + row(px, w, h - n)
    }
}

/// Output rows `0..n` of a clockwise quarter turn of a `w` by `h` grid:
/// output row `c` is source column `c` read from the bottom up.
pub open spec fn turned_cw(px: Seq<Pixel16>, w: int, h: int, n: nat) -> Seq<Pixel16>
    decreases n,
{
    if n == 0 {
        Seq::empty()
    } else {
        turned_cw(px, w, h, (n - 1) as nat) + Seq::new(h as nat, |k: int| px[(h - 1 - k) * w + (n - 1)])
    }
}

/// Output rows `0..n` of a counter-clockwise quarter turn: output row `c` is
/// source column `w - 1 - c` read from the top down.
pub open spec fn turned_ccw(px: Seq<Pixel16>, w: int, h: int, n: nat) -> Seq<Pixel16>
    decreases n,
{
    if n == 0 {
        Seq::empty()
    } else {
        turned_ccw(px, w, h, (n - 1) as nat) + Seq::new(h as nat, |k: int| px[k * w + (w - n)])
    }
}

/// Output rows `0..n` of the grid framed by `left`, `right` and `top` columns
/// and rows of `bg` (rows below the source are background too).
pub open spec fn padded(px: Seq<Pixel16>, w: int, h: int, left: int, right: int, top: int, bg: Pixel16, n: nat) -> Seq<Pixel16>
    decreases n,
{
    if n == 0 {
        Seq::empty()
    } else {
        let r = n - 1;
        let full = left + w + right;
        padded(px, w, h, left, right, top, bg, (n - 1) as nat) + if top <= r < top + h {
            Seq::new(left as nat, |_i: int| bg) + row(px, w, r - top) + Seq::new(
                right as nat,
                |_i: int| bg,
            )
        } else {
            Seq::new(full as nat, |_i: int| bg)
        }
    }
}

pub open spec fn premultiplied(p: Pixel16) -> Pixel16 {
    Pixel16 {
        r: ((p.r * p.a + 32767) / 65535) as u16,
        g: ((p.g * p.a + 32767) / 65535) as u16,
        b: ((p.b * p.a + 32767) / 65535) as u16,
        a: p.a,
    }
}

pub open spec fn expand(v: u16, a: u16) -> u16 {
    let e = (v * 65535 + a / 2) / (a as int);
    if e > 65535 {
        65535
    } else {
        e as u16
    }
}

pub open spec fn unpremultiplied(p: Pixel16) -> Pixel16 {
    if p.a == 0 {
        Pixel16 { r: 0, g: 0, b: 0, a: 0 }
    } else {
        Pixel16 { r: expand(p.r, p.a), g: expand(p.g, p.a), b: expand(p.b, p.a), a: p.a }
    }
}

fn push_pixels(out: &mut Vec<Pixel16>, px: &Vec<Pixel16>, start: usize, n: usize)
    requires
        start + n <= px@.len(),
    ensures
        final(out)@ == old(out)@ + px@.subrange(start as int, start + n),
{
    let _len = px.len();
    let mut k: usize = 0;
    while k < n
        invariant
            k <= n,
            _len == px@.len(),
            start + n <= px@.len(),
            out@ == old(out)@ + px@.subrange(start as int, start + k),
        decreases n - k,
    {
        out.push(px[start + k]);
        k = k + 1;
        assert(out@ =~= old(out)@ + px@.subrange(start as int, start + k));
    }
}

fn push_fill(out: &mut Vec<Pixel16>, p: Pixel16, n: usize)
    ensures
        final(out)@ == old(out)@ + Seq::new(n as nat, |_i: int| p),
{
    let mut k: usize = 0;
    while k < n
        invariant
            k <= n,
            out@ == old(out)@ + Seq::new(k as nat, |_i: int| p),
        decreases n - k,
    {
        out.push(p);
        k = k + 1;
        assert(out@ =~= old(out)@ + Seq::new(k as nat, |_i: int| p));
    }
}

proof fn lemma_row_in_grid(r: int, w: int, h: int, x: int, cw: int)
    requires
        0 <= r < h,
        0 <= x,
        0 <= cw,
        x + cw <= w,
    ensures
        0 <= r * w + x,
        r * w + x + cw <= w * h,
{
    assert(r * w + w <= h * w) by (nonlinear_arith)
        requires
            r < h,
            w >= 0,
    ;
    assert(r * w >= 0) by (nonlinear_arith)
        requires
            r >= 0,
            w >= 0,
    ;
    assert(w * h == h * w) by (nonlinear_arith);
}

/// The `cw` by `ch` window at (`x`, `y`) of a `w`-wide grid.
fn crop_pixels(px: &Vec<Pixel16>, w: usize, h: usize, x: usize, y: usize, cw: usize, ch: usize) -> (out: Vec<Pixel16>)
    requires
        px@.len() == w * h,
        x + cw <= w,
        y + ch <= h,
    ensures
        out@ == cropped(px@, w as int, x as int, y as int, cw as int, ch as nat),
{
    let _n = px.len();
    let mut out: Vec<Pixel16> = Vec::new();
    let mut r: usize = 0;
    while r < ch
        invariant
            r <= ch,
            _n == px@.len(),
            px@.len() == w * h,
            x + cw <= w,
            y + ch <= h,
            out@ == cropped(px@, w as int, x as int, y as int, cw as int, r as nat),
        decreases ch - r,
    {
        proof {
            lemma_row_in_grid((y + r) as int, w as int, h as int, x as int, cw as int);
        }
        let start = (y + r) * w + x;
        push_pixels(&mut out, px, start, cw);
        r = r + 1;
    }
    out
}

/// Every row of a `w`-wide grid reversed.
fn mirror_pixels(px: &Vec<Pixel16>, w: usize, h: usize) -> (out: Vec<Pixel16>)
    requires
        px@.len() == w * h,
    ensures
        out@ == mirrored(px@, w as int, h as nat),
{
    let _n = px.len();
    let mut out: Vec<Pixel16> = Vec::new();
    let mut r: usize = 0;
    while r < h
        invariant
            r <= h,
            _n == px@.len(),
            px@.len() == w * h,
            out@ == mirrored(px@, w as int, r as nat),
        decreases h - r,
    {
        proof {
            lemma_row_in_grid(r as int, w as int, h as int, 0, w as int);
        }
        let start = r * w;
        let ghost before = out@;
        let mut k: usize = 0;
        while k < w
            invariant
                k <= w,
                _n == px@.len(),
                start + w <= px@.len(),
                start == r * w,
                out@ == before + row(px@, w as int, r as int).reverse().subrange(0, k as int),
            decreases w - k,
        {
            out.push(px[start + w - 1 - k]);
            k = k + 1;
            assert(out@ =~= before + row(px@, w as int, r as int).reverse().subrange(0, k as int));
        }
        assert(row(px@, w as int, r as int).reverse().subrange(0, w as int) =~= row(px@, w as int, r as int).reverse());
        r = r + 1;
    }
    out
}

/// The rows of a `w`-wide grid, bottom first.
fn flip_pixels(px: &Vec<Pixel16>, w: usize, h: usize) -> (out: Vec<Pixel16>)
    requires
        px@.len() == w * h,
    ensures
        out@ == flipped(px@, w as int, h as int, h as nat),
{
    let _n = px.len();
    let mut out: Vec<Pixel16> = Vec::new();
    let mut n: usize = 0;
    while n < h
        invariant
            n <= h,
            _n == px@.len(),
            px@.len() == w * h,
            out@ == flipped(px@, w as int, h as int, n as nat),
        decreases h - n,
    {
        let r = h - 1 - n;
        proof {
            lemma_row_in_grid(r as int, w as int, h as int, 0, w as int);
        }
        push_pixels(&mut out, px, r * w, w);
        n = n + 1;
    }
    out
}

/// The pixels in reverse order (a half turn).
fn reverse_pixels(px: &Vec<Pixel16>) -> (out: Vec<Pixel16>)
    ensures
        out@ == px@.reverse(),
{
    let n = px.len();
    let mut out: Vec<Pixel16> = Vec::new();
    let mut k: usize = 0;
    while k < n
        invariant
            k <= n,
            n == px@.len(),
            out@ == px@.reverse().subrange(0, k as int),
        decreases n - k,
    {
        out.push(px[n - 1 - k]);
        k = k + 1;
        assert(out@ =~= px@.reverse().subrange(0, k as int));
    }
    assert(px@.reverse().subrange(0, n as int) =~= px@.reverse());
    out
}

/// A quarter turn of a `w` by `h` grid; clockwise when `clockwise`.
fn turn_pixels(px: &Vec<Pixel16>, w: usize, h: usize, clockwise: bool) -> (out: Vec<Pixel16>)
    requires
        px@.len() == w * h,
    ensures
        clockwise ==> out@ == turned_cw(px@, w as int, h as int, w as nat),
        !clockwise ==> out@ == turned_ccw(px@, w as int, h as int, w as nat),
{
    let _n = px.len();
    let mut out: Vec<Pixel16> = Vec::new();
    let mut c: usize = 0;
    while c < w
        invariant
            c <= w,
            _n == px@.len(),
            px@.len() == w * h,
            clockwise ==> out@ == turned_cw(px@, w as int, h as int, c as nat),
            !clockwise ==> out@ == turned_ccw(px@, w as int, h as int, c as nat),
        decreases w - c,
    {
        let ghost before = out@;
        let col = if clockwise {
            c
        } else {
            w - 1 - c
        };
        let ghost line = if clockwise {
            Seq::new(h as nat, |k: int| px@[(h - 1 - k) * w + c])
        } else {
            Seq::new(h as nat, |k: int| px@[k * w + (w - (c + 1))])
        };
        let mut k: usize = 0;
        while k < h
            invariant
                k <= h,
                c < w,
                _n == px@.len(),
                px@.len() == w * h,
                col == (if clockwise { c } else { (w - 1 - c) as usize }),
                line == (if clockwise {
                    Seq::new(h as nat, |k: int| px@[(h - 1 - k) * w + c])
                } else {
                    Seq::new(h as nat, |k: int| px@[k * w + (w - (c + 1))])
                }),
                out@ == before + line.subrange(0, k as int),
            decreases h - k,
        {
            let r = if clockwise {
                h - 1 - k
            } else {
                k
            };
            proof {
                lemma_row_in_grid(r as int, w as int, h as int, col as int, 1);
            }
            out.push(px[r * w + col]);
            k = k + 1;
            assert(out@ =~= before + line.subrange(0, k as int));
        }
        assert(line.subrange(0, h as int) =~= line);
        c = c + 1;
    }
    out
}

/// The grid framed by background columns and rows.
fn pad_pixels(px: &Vec<Pixel16>, w: usize, h: usize, left: usize, right: usize, top: usize, full_h: usize, bg: Pixel16) -> (out: Vec<Pixel16>)
    requires
        px@.len() == w * h,
        top + h <= full_h,
    ensures
        out@ == padded(px@, w as int, h as int, left as int, right as int, top as int, bg, full_h as nat),
{
    let _n = px.len();
    let mut out: Vec<Pixel16> = Vec::new();
    let mut r: usize = 0;
    while r < full_h
        invariant
            r <= full_h,
            top + h <= full_h,
            _n == px@.len(),
            px@.len() == w * h,
            out@ == padded(px@, w as int, h as int, left as int, right as int, top as int, bg, r as nat),
        decreases full_h - r,
    {
        let ghost before = out@;
        if top <= r && r < top + h {
            proof {
                lemma_row_in_grid((r - top) as int, w as int, h as int, 0, w as int);
            }
            push_fill(&mut out, bg, left);
            push_pixels(&mut out, px, (r - top) * w, w);
            push_fill(&mut out, bg, right);
        } else {
            push_fill(&mut out, bg, left);
            push_fill(&mut out, bg, w);
            push_fill(&mut out, bg, right);
            assert(Seq::new(left as nat, |_i: int| bg) + Seq::new(w as nat, |_i: int| bg) + Seq::new(right as nat, |_i: int| bg) =~= Seq::new((left + w + right) as nat, |_i: int| bg));
        }
        r = r + 1;
    }
    out
}

fn premultiply(p: Pixel16) -> (q: Pixel16)
    ensures
        q == premultiplied(p),
{
    let a = p.a as u32;
    assert(p.r as int * a <= 65535 * 65535 && p.g as int * a <= 65535 * 65535 && p.b as int * a <= 65535 * 65535) by (nonlinear_arith)
        requires
            a <= 65535,
    ;
    assert((p.r as int * a + 32767) / 65535 <= 65535 && (p.g as int * a + 32767) / 65535 <= 65535 && (p.b as int * a + 32767) / 65535 <= 65535) by (nonlinear_arith)
        requires
            a <= 65535,
            p.r <= 65535,
            p.g <= 65535,
            p.b <= 65535,
    ;
    Pixel16 {
        r: ((p.r as u32 * a + 32767) / 65535) as u16,
        g: ((p.g as u32 * a + 32767) / 65535) as u16,
        b: ((p.b as u32 * a + 32767) / 65535) as u16,
        a: p.a,
    }
}

fn expand_channel(v: u16, a: u16) -> (r: u16)
    requires
        a >= 1,
    ensures
        r == expand(v, a),
{
    let e = (v as u64 * 65535 + a as u64 / 2) / a as u64;
    if e > 65535 {
        65535
    } else {
        e as u16
    }
}

fn unpremultiply(p: Pixel16) -> (q: Pixel16)
    ensures
        q == unpremultiplied(p),
{
    if p.a == 0 {
        Pixel16 { r: 0, g: 0, b: 0, a: 0 }
    } else {
        Pixel16 {
            r: expand_channel(p.r, p.a),
            g: expand_channel(p.g, p.a),
            b: expand_channel(p.b, p.a),
            a: p.a,
        }
    }
}

/// Every pixel premultiplied (or unpremultiplied) by its alpha.
fn map_alpha(px: &Vec<Pixel16>, forward: bool) -> (out: Vec<Pixel16>)
    ensures
        out@.len() == px@.len(),
        forall|i: int|
            0 <= i < px@.len() ==> #[trigger] out@[i] == (if forward {
                premultiplied(px@[i])
            } else {
                unpremultiplied(px@[i])
            }),
{
    let mut out: Vec<Pixel16> = Vec::new();
    let mut k: usize = 0;
    while k < px.len()
        invariant
            k <= px@.len(),
            out@.len() == k,
            forall|i: int|
                0 <= i < k ==> #[trigger] out@[i] == (if forward {
                    premultiplied(px@[i])
                } else {
                    unpremultiplied(px@[i])
                }),
        decreases px@.len() - k,
    {
        let p = px[k];
        out.push(
            if forward {
                premultiply(p)
            } else {
                unpremultiply(p)
            },
        );
        k = k + 1;
    }
    out
}

/// The crop window `(x, y, width, height)`; a zero extent means the rest.
pub open spec fn crop_box(img: Image, o: Options) -> (int, int, int, int) {
    let x = o.crop_x as int;
    let y = o.crop_y as int;
    (
        x,
        y,
        if o.crop_width == 0 { img.width - x } else { o.crop_width as int },
        if o.crop_height == 0 { img.height - y } else { o.crop_height as int },
    )
}

pub open spec fn target_ok(w: int, h: int, o: Options) -> bool {
    1 <= w && 1 <= h && w * h <= o.max_pixels && w * h <= usize::MAX
}

/// The operation can run on `img` with options `o`.
pub open spec fn transform_ok(img: Image, o: Options) -> bool {
    match OPERATION {
        Operation::Crop => {
            let (x, y, cw, ch) = crop_box(img, o);
            &&& x < img.width && y < img.height
            &&& x + cw <= img.width && y + ch <= img.height
            &&& target_ok(cw, ch, o)
        },
        Operation::Pad => {
            &&& img.width + o.pad_left + o.pad_right <= u32::MAX
            &&& img.height + o.pad_top + o.pad_bottom <= u32::MAX
            &&& target_ok(
                img.width + o.pad_left + o.pad_right,
                img.height + o.pad_top + o.pad_bottom,
                o,
            )
        },
        Operation::Rotate90 | Operation::Rotate270 => target_ok(img.height as int, img.width as int, o),
        _ => true,
    }
}

/// Width, height and pixels after the operation.
pub open spec fn transformed(img: Image, o: Options) -> (int, int, Seq<Pixel16>) {
    let w = img.width as int;
    let h = img.height as int;
    let px = img.pixels@;
    match OPERATION {
        Operation::Crop => {
            let (x, y, cw, ch) = crop_box(img, o);
            (cw, ch, cropped(px, w, x, y, cw, ch as nat))
        },
        Operation::Pad => {
            let fw = w + o.pad_left + o.pad_right;
            let fh = h + o.pad_top + o.pad_bottom;
            let bg = Pixel16 {
                r: o.background.red,
                g: o.background.green,
                b: o.background.blue,
                a: o.background.alpha,
            };
            (fw, fh, padded(px, w, h, o.pad_left as int, o.pad_right as int, o.pad_top as int, bg, fh as nat))
        },
        Operation::FlipHorizontal => (w, h, mirrored(px, w, h as nat)),
        Operation::FlipVertical => (w, h, flipped(px, w, h, h as nat)),
        Operation::Rotate90 => (h, w, turned_cw(px, w, h, w as nat)),
        Operation::Rotate270 => (h, w, turned_ccw(px, w, h, w as nat)),
        Operation::Rotate180 => (w, h, px.reverse()),
        Operation::AlphaPremultiply => (w, h, Seq::new(px.len(), |i: int| premultiplied(px[i]))),
        Operation::AlphaUnpremultiply => (w, h, Seq::new(px.len(), |i: int| unpremultiplied(px[i]))),
        _ => (w, h, px),
    }
}

pub open spec fn limits_ok(o: Options) -> bool {
    o.max_pixels != 0 && o.max_input_bytes != 0 && o.max_inflate_bytes != 0
}

pub open spec fn decode_options_of(o: Options) -> DecodeOptions {
    DecodeOptions {
        max_pixels: o.max_pixels,
        max_inflate_bytes: o.max_inflate_bytes,
        strict_crc: o.strict_crc,
        strict_trailing_data: o.strict_trailing_data,
    }
}

pub open spec fn filter_spec(value: FilterStrategy) -> png_codec::Filter {
    match value {
        FilterStrategy::NoFilter => png_codec::Filter::NoFilter,
        FilterStrategy::Sub => png_codec::Filter::Sub,
        FilterStrategy::Up => png_codec::Filter::Up,
        FilterStrategy::Average => png_codec::Filter::Average,
        FilterStrategy::Paeth => png_codec::Filter::Paeth,
        FilterStrategy::Adaptive => png_codec::Filter::Adaptive,
    }
}

/// Applies the capsule's operation to a decoded image.
fn transform(image: Image, options: &Options) -> (r: Result<Image, Error>)
    requires
        image.pixels@.len() == image.width * image.height,
    ensures
        r is Ok <==> transform_ok(image, *options),
        r matches Ok(t) ==> {
            let (w, h, px) = transformed(image, *options);
            &&& t.width == w && t.height == h && t.pixels@ == px
            &&& !t.interlaced
            &&& t.source_bit_depth == image.source_bit_depth
            &&& t.source_color_type == (if png_codec::has_alpha(px) { 6u8 } else { 2u8 })
        },
{
    let mut image = image;
    let w = image.width as usize;
    let h = image.height as usize;
    let ghost px0 = image.pixels@;
    if OPERATION == Operation::Crop {
        let x = options.crop_x;
        let y = options.crop_y;
        if x >= image.width || y >= image.height {
            return Err(Error::InvalidOptions("crop origin is outside the image"));
        }
        let cw = if options.crop_width == 0 {
            image.width - x
        } else {
            options.crop_width
        };
        let ch = if options.crop_height == 0 {
            image.height - y
        } else {
            options.crop_height
        };
        if x as u64 + cw as u64 > image.width as u64 || y as u64 + ch as u64 > image.height as u64 {
            return Err(Error::InvalidOptions("crop rectangle exceeds the image"));
        }
        match checked_target(cw, ch, options) {
            Ok(_) => {},
            Err(e) => return Err(e),
        }
        let pixels = crop_pixels(&image.pixels, w, h, x as usize, y as usize, cw as usize, ch as usize);
        image.width = cw;
        image.height = ch;
        image.pixels = pixels;
    } else if OPERATION == Operation::Pad {
        let fw = image.width as u64 + options.pad_left as u64 + options.pad_right as u64;
        let fh = image.height as u64 + options.pad_top as u64 + options.pad_bottom as u64;
        if fw > 0xffff_ffff {
            return Err(Error::IntegerOverflow("padded width"));
        }
        if fh > 0xffff_ffff {
            return Err(Error::IntegerOverflow("padded height"));
        }
        match checked_target(fw as u32, fh as u32, options) {
            Ok(_) => {},
            Err(e) => return Err(e),
        }
        let bg = Pixel16 {
            r: options.background.red,
            g: options.background.green,
            b: options.background.blue,
            a: options.background.alpha,
        };
        let pixels = pad_pixels(
            &image.pixels,
            w,
            h,
            options.pad_left as usize,
            options.pad_right as usize,
            options.pad_top as usize,
            fh as usize,
            bg,
        );
        image.width = fw as u32;
        image.height = fh as u32;
        image.pixels = pixels;
    } else if OPERATION == Operation::FlipHorizontal {
        image.pixels = mirror_pixels(&image.pixels, w, h);
    } else if OPERATION == Operation::FlipVertical {
        image.pixels = flip_pixels(&image.pixels, w, h);
    } else if OPERATION == Operation::Rotate90 || OPERATION == Operation::Rotate270 {
        match checked_target(image.height, image.width, options) {
            Ok(_) => {},
            Err(e) => return Err(e),
        }
        let pixels = turn_pixels(&image.pixels, w, h, OPERATION == Operation::Rotate90);
        let old_w = image.width;
        image.width = image.height;
        image.height = old_w;
        image.pixels = pixels;
    } else if OPERATION == Operation::Rotate180 {
        image.pixels = reverse_pixels(&image.pixels);
    } else if OPERATION == Operation::AlphaPremultiply {
        image.pixels = map_alpha(&image.pixels, true);
        assert(image.pixels@ =~= Seq::new(px0.len(), |i: int| premultiplied(px0[i])));
    } else if OPERATION == Operation::AlphaUnpremultiply {
        image.pixels = map_alpha(&image.pixels, false);
        assert(image.pixels@ =~= Seq::new(px0.len(), |i: int| unpremultiplied(px0[i])));
    }
    image.interlaced = false;
    let mut any_alpha = false;
    let mut k: usize = 0;
    while k < image.pixels.len()
        invariant
            k <= image.pixels@.len(),
            !any_alpha ==> forall|j: int| 0 <= j < k ==> #[trigger] image.pixels@[j].a == 65535,
            any_alpha ==> png_codec::has_alpha(image.pixels@),
        decreases image.pixels@.len() - k,
    {
        if image.pixels[k].a != 65535 {
            any_alpha = true;
        }
        k = k + 1;
    }
    image.source_color_type = if any_alpha {
        6
    } else {
        2
    };
    image.source_channels = if any_alpha {
        4
    } else {
        3
    };
    Ok(image)
}

/// Validate or transform one PNG using only this crate's native implementation.
/// The complete source is validated before any target bytes are committed.
pub fn convert(input: &[u8], output: &mut Vec<u8>, options: &Options) -> (result: Result<
    Report,
    Error,
>)
    ensures
        !limits_ok(*options) ==> result matches Err(Error::InvalidOptions(_)),
        limits_ok(*options) && input@.len() > options.max_input_bytes ==> ({
            &&& result matches Err(Error::InputTooLarge { bytes, limit })
            &&& bytes == options.max_input_bytes + 1
            &&& limit == options.max_input_bytes
        }),
        result is Err ==> final(output)@ == old(output)@,
        limits_ok(*options) && input@.len() <= options.max_input_bytes && png_codec::first_chunk_refusal(
            input@,
            decode_options_of(*options),
        ) is Some ==> result matches Err(Error::InvalidInput(_)),
        result matches Ok(report) ==> {
            &&& limits_ok(*options)
            &&& input@.len() <= options.max_input_bytes
            &&& report.input_bytes == input@.len()
            &&& final(output)@.len() == old(output)@.len() + report.output_bytes
            &&& (OPERATION == Operation::Validate ==> final(output)@ == old(output)@ + input@)
            &&& exists|img: Image| #[trigger]
                header_of(input@, decode_options_of(*options), img) && transform_ok(img, *options)
                    && report.source_width == img.width && report.source_height == img.height
                    && report.width == transformed(img, *options).0 && report.height
                    == transformed(img, *options).1 && (OPERATION != Operation::Validate ==> exists|
                    t: Image,
                | #[trigger] encoded(t, filter_spec(options.filter)) == final(output)@.subrange(
                    old(output)@.len() as int,
                    final(output)@.len() as int,
                ) && t.width == transformed(img, *options).0 && t.height == transformed(
                    img,
                    *options,
                ).1 && t.pixels@ == transformed(img, *options).2 && t.source_bit_depth
                    == img.source_bit_depth)
        },
{
    if options.max_pixels == 0 || options.max_input_bytes == 0 || options.max_inflate_bytes == 0 {
        return Err(Error::InvalidOptions("resource limits must be non-zero"));
    }
    if input.len() as u64 > options.max_input_bytes {
        return Err(Error::InputTooLarge { bytes: options.max_input_bytes + 1, limit: options.max_input_bytes });
    }
    let decode_options = DecodeOptions {
        max_pixels: options.max_pixels,
        max_inflate_bytes: options.max_inflate_bytes,
        strict_crc: options.strict_crc,
        strict_trailing_data: options.strict_trailing_data,
    };
    let decoded = match png_codec::decode(input, &decode_options) {
        Ok(img) => img,
        Err(e) => {
            let is_pixel_limit = match &e {
                png_codec::Error::Limit(v) => crate::text::str_eq(*v, "pixel count"),
                _ => false,
            };
            if is_pixel_limit {
                return Err(Error::PixelLimitExceeded {
                    pixels: if options.max_pixels < u64::MAX { options.max_pixels + 1 } else { u64::MAX },
                    limit: options.max_pixels,
                });
            }
            return Err(Error::InvalidInput(e.to_string()));
        },
    };
    let ghost img0 = decoded;
    assert(decode_options == decode_options_of(*options));
    let source_width = decoded.width;
    let source_height = decoded.height;
    let source_color_type = decoded.source_color_type;
    let source_bit_depth = decoded.source_bit_depth;
    let source_interlaced = decoded.interlaced;
    let transformed_image = match transform(decoded, options) {
        Ok(t) => t,
        Err(e) => return Err(e),
    };
    let bytes: Vec<u8> = if OPERATION == Operation::Validate {
        let mut copy: Vec<u8> = Vec::new();
        crate::bytes::push_range(&mut copy, input, 0, input.len());
        assert(input@.subrange(0, input@.len() as int) =~= input@);
        copy
    } else {
        match png_codec::encode(&transformed_image, filter(options.filter)) {
            Ok(v) => v,
            Err(e) => return Err(Error::InvalidInput(e.to_string())),
        }
    };
    let n = transformed_image.pixels.len() as u64;
    let pixel_memory = if n <= u64::MAX / 8 {
        n * 8
    } else {
        u64::MAX
    };
    let peak = (input.len() as u64).saturating_add(bytes.len() as u64).saturating_add(pixel_memory);
    let output_bytes = bytes.len() as u64;
    let mut bytes = bytes;
    let ghost appended = bytes@;
    output.append(&mut bytes);
    proof {
        assert(output@.subrange(old(output)@.len() as int, output@.len() as int) =~= appended);
        assert(header_of(input@, decode_options_of(*options), img0));
        if OPERATION != Operation::Validate {
            assert(encoded(transformed_image, filter_spec(options.filter)) == output@.subrange(
                old(output)@.len() as int,
                output@.len() as int,
            ));
        }
    }
    Ok(
        Report {
            input_bytes: input.len() as u64,
            output_bytes,
            source_width,
            source_height,
            width: transformed_image.width,
            height: transformed_image.height,
            pixels: transformed_image.pixels.len() as u64,
            source_color_type,
            source_bit_depth,
            source_interlaced,
            target_bit_depth: if OPERATION == Operation::Validate {
                source_bit_depth
            } else if source_bit_depth == 16 {
                16
            } else {
                8
            },
            operation: operation_name(),
            strategy: "png-native-canonical",
            backend: "native-portable",
            peak_working_memory_bytes: peak,
            warnings: transformed_image.warnings,
        },
    )
}

/// A small opaque-and-translucent PNG on which the defaults run.
pub fn conformance_fixture() -> (v: Vec<u8>)
    ensures
        v@.len() > 0,
{
    let mut pixels: Vec<Pixel16> = Vec::new();
    pixels.push(Pixel16 { r: 0, g: 0, b: 0, a: 65535 });
    pixels.push(Pixel16 { r: 65535, g: 0, b: 0, a: 32896 });
    pixels.push(Pixel16 { r: 0, g: 65535, b: 0, a: 65535 });
    pixels.push(Pixel16 { r: 0, g: 0, b: 65535, a: 65535 });
    pixels.push(Pixel16 { r: 65535, g: 65535, b: 0, a: 65535 });
    pixels.push(Pixel16 { r: 65535, g: 65535, b: 65535, a: 65535 });
    let image = Image {
        width: 3,
        height: 2,
        source_channels: 4,
        source_bit_depth: 8,
        source_color_type: 6,
        interlaced: false,
        pixels,
        warnings: Vec::new(),
    };
    proof {
        if png_codec::has_alpha(image.pixels@) {
        }
    }
    match png_codec::encode(&image, png_codec::Filter::Adaptive) {
        Ok(v) => {
            assert(v@.len() >= 8) by {
                assert(v@ == encoded(image, png_codec::Filter::Adaptive));
            }
            v
        },
        Err(_) => Vec::new(),
    }
}

} // verus!
