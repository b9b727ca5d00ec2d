//! Rendering a composited GIF frame (or all frames side by side) to PNG.
use vstd::prelude::*;
use crate::legacy_native::{self, gif};
use crate::png_codec;

verus! {

#[derive(Debug, Clone, Copy, PartialEq, Eq, Structural)]
pub enum Operation {
    Frame,
    SpriteSheet,
}

/// The rendering this capsule performs.
pub const OPERATION: Operation = Operation::Frame;

#[derive(Debug, Clone, PartialEq, Eq)]
pub struct Options {
    pub max_input_bytes: u64,
    pub max_pixels: u64,
    pub max_frames: u32,
    pub frame_index: u32,
}

impl Default for Options {
    fn default() -> (o: Self)
        ensures
            o.max_input_bytes == 512 * 1024 * 1024,
            o.max_pixels == 100_000_000,
            o.max_frames == 10_000,
            o.frame_index == 0,
    {
        Options { max_input_bytes: 536_870_912, max_pixels: 100_000_000, max_frames: 10_000, frame_index: 0 }
    }
}

#[derive(Debug, Clone, PartialEq, Eq)]
pub struct Report {
    pub input_bytes: u64,
    pub output_bytes: u64,
    pub source_width: u32,
    pub source_height: u32,
    pub source_frames: u32,
    pub width: u32,
    pub height: u32,
    pub selected_frame: Option<u32>,
    pub peak_working_memory_bytes: u64,
    pub strategy: &'static str,
    pub backend: &'static str,
    pub warnings: Vec<String>,
}

#[derive(Debug)]
pub enum Error {
    InvalidOptions(&'static str),
    InputTooLarge { bytes: u64, limit: u64 },
    PixelLimitExceeded { pixels: u64, limit: u64 },
    InvalidInput(String),
    IntegerOverflow(&'static str),
}

pub open spec fn widen(p: legacy_native::Pixel) -> png_codec::Pixel16 {
    png_codec::Pixel16 { r: (p.r * 257) as u16, g: (p.g * 257) as u16, b: (p.b * 257) as u16, a: (p.a * 257) as u16 }
}

/// Widening to 16 bits loses nothing: two 8-bit pixels widen to the same
/// 16-bit pixel only when they are equal, so the rendered image determines
/// the frame it was rendered from.
pub proof fn lemma_widen_injective(p: legacy_native::Pixel, q: legacy_native::Pixel)
    ensures
        widen(p) == widen(q) ==> p == q,
        widen(p).r == p.r * 257 && widen(p).g == p.g * 257 && widen(p).b == p.b * 257 && widen(p).a == p.a
            * 257,
{
}

/// The 8-bit image as a canonical 16-bit PNG image.
pub fn png_image(image: &legacy_native::Image) -> (r: png_codec::Image)
    ensures
        r.width == image.width && r.height == image.height,
        r.source_bit_depth == 8,
        r.pixels@.len() == image.pixels@.len(),
        forall|i: int| 0 <= i < r.pixels@.len() ==> #[trigger] r.pixels@[i] == widen(image.pixels@[i]),
{
    let mut alpha = false;
    let mut pixels: Vec<png_codec::Pixel16> = Vec::new();
    let mut i: usize = 0;
    while i < image.pixels.len()
        invariant
            i <= image.pixels@.len(),
            pixels@.len() == i,
            forall|j: int| 0 <= j < i ==> #[trigger] pixels@[j] == widen(image.pixels@[j]),
        decreases image.pixels@.len() - i,
    {
        let p = image.pixels[i];
        if p.a != 255 {
            alpha = true;
        }
        pixels.push(png_codec::Pixel16 { r: p.r as u16 * 257, g: p.g as u16 * 257, b: p.b as u16 * 257, a: p.a as u16 * 257 });
        i = i + 1;
    }
    png_codec::Image {
        width: image.width,
        height: image.height,
        source_channels: if alpha { 4 } else { 3 },
        source_bit_depth: 8,
        source_color_type: if alpha { 6 } else { 2 },
        interlaced: false,
        pixels,
        warnings: Vec::new(),
    }
}

pub open spec fn limits_ok(o: Options) -> bool {
    o.max_input_bytes != 0 && o.max_pixels != 0 && o.max_frames != 0
}

/// The frames of a `w`-wide, `h`-high animation laid side by side, rows
/// `0..n`.
pub open spec fn sheet_rows(frames: Seq<gif::GifFrame>, w: int, n: nat) -> Seq<legacy_native::Pixel>
    decreases n,
{
    if n == 0 {
        Seq::empty()
    } else {
        sheet_rows(frames, w, (n - 1) as nat) + sheet_row(frames, w, n - 1, frames.len())
    }
}

pub open spec fn sheet_row(frames: Seq<gif::GifFrame>, w: int, y: int, k: nat) -> Seq<legacy_native::Pixel>
    decreases k,
{
    if k == 0 {
        Seq::empty()
    } else {
        sheet_row(frames, w, y, (k - 1) as nat) + frames[k - 1].image.pixels@.subrange(y * w, y * w + w)
    }
}

/// Renders the selected frame (or the sprite sheet) of a GIF as PNG,
/// appended to `output` on success.
pub fn convert(input: &[u8], output: &mut Vec<u8>, options: &Options) -> (result: Result<
    Report,
    Error,
>)
    ensures
        !limits_ok(*options) ==> result matches Err(Error::InvalidOptions(_)),
        limits_ok(*options) && input@.len() > options.max_input_bytes ==> result matches Err(
            Error::InputTooLarge { .. },
        ),
        result is Err ==> final(output)@ == old(output)@,
        result is Ok ==> input@.len() >= 13 && input@[input@.len() - 1] == 0x3b && (
        legacy_native::gif::gif_signature(input@, 0x37) || legacy_native::gif::gif_signature(input@, 0x39)),
        result matches Ok(report) ==> exists|t: png_codec::Image|
            #[trigger] png_codec::encoded(t, png_codec::Filter::Adaptive) == final(output)@.subrange(
                old(output)@.len() as int,
                final(output)@.len() as int,
            ) && t.width == report.width && t.height == report.height && final(output)@.len()
                == old(output)@.len() + report.output_bytes,
        result matches Ok(report) ==> OPERATION == Operation::Frame ==> report.selected_frame
            == Some(options.frame_index) && options.frame_index < report.source_frames,
{
    if options.max_input_bytes == 0 || options.max_pixels == 0 || options.max_frames == 0 {
        return Err(Error::InvalidOptions("resource limits must be non-zero"));
    }
    if input.len() as u64 > options.max_input_bytes {
        return Err(Error::InputTooLarge { bytes: options.max_input_bytes + 1, limit: options.max_input_bytes });
    }
    if options.max_input_bytes > usize::MAX as u64 {
        return Err(Error::IntegerOverflow("GIF sub-block limit"));
    }
    let file = match gif::decode_gif(input, options.max_pixels, options.max_frames, options.max_input_bytes as usize) {
        Ok(f) => f,
        Err(e) => {
            let is_pixel_limit = match &e {
                legacy_native::Error::Limit(v) => crate::text::str_eq(*v, "pixel count"),
                _ => false,
            };
            if is_pixel_limit {
                return Err(Error::PixelLimitExceeded {
                    pixels: if options.max_pixels < u64::MAX { options.max_pixels + 1 } else { u64::MAX },
                    limit: options.max_pixels,
                });
            }
            return Err(Error::InvalidInput(e.to_string()));
        },
    };
    let (report, mut bytes) = match render(&file, options, input.len()) {
        Ok(v) => v,
        Err(e) => return Err(e),
    };
    let ghost appended = bytes@;
    output.append(&mut bytes);
    assert(output@.subrange(old(output)@.len() as int, output@.len() as int) =~= appended);
    Ok(report)
}

/// A copy of `image`.
fn copy_image(image: &legacy_native::Image) -> (r: legacy_native::Image)
    ensures
        r.width == image.width && r.height == image.height && r.pixels@ == image.pixels@,
{
    let mut pixels: Vec<legacy_native::Pixel> = Vec::new();
    let mut i: usize = 0;
    while i < image.pixels.len()
        invariant
            i <= image.pixels@.len(),
            pixels@ == image.pixels@.subrange(0, i as int),
        decreases image.pixels@.len() - i,
    {
        pixels.push(image.pixels[i]);
        i = i + 1;
        assert(pixels@ =~= image.pixels@.subrange(0, i as int));
    }
    assert(image.pixels@.subrange(0, image.pixels@.len() as int) =~= image.pixels@);
    legacy_native::Image { width: image.width, height: image.height, pixels }
}

/// All frames of `file` side by side, one sheet row per image row.
fn sprite_sheet(file: &gif::GifFile, options: &Options) -> (r: Result<legacy_native::Image, Error>)
    requires
        gif::frames_ok(*file),
        file.width <= 0xFFFF && file.height <= 0xFFFF,
        file.frames@.len() <= u32::MAX,
{
    let fw = file.width as usize;
    let fh = file.height as usize;
    let nframes = file.frames.len();
    assert(file.width as int * nframes as int <= 0xFFFF * 0xFFFF_FFFF) by (nonlinear_arith)
        requires
            file.width <= 0xFFFF,
            nframes <= 0xFFFF_FFFF,
    ;
    if file.width as u64 * nframes as u64 > 0xffff_ffff {
        return Err(Error::IntegerOverflow("sprite-sheet width"));
    }
    let width = (file.width as u64 * nframes as u64) as u32;
    assert(width as int * file.height as int <= 0xFFFF_FFFF * 0xFFFF) by (nonlinear_arith)
        requires
            width <= 0xFFFF_FFFF,
            file.height <= 0xFFFF,
    ;
    let pixels = width as u64 * file.height as u64;
    if pixels > options.max_pixels {
        return Err(Error::PixelLimitExceeded { pixels, limit: options.max_pixels });
    }
    if pixels > usize::MAX as u64 {
        return Err(Error::IntegerOverflow("sprite-sheet allocation"));
    }
    let mut out: Vec<legacy_native::Pixel> = Vec::new();
    let mut y: usize = 0;
    while y < fh
        invariant
            y <= fh,
            gif::frames_ok(*file),
            fw == file.width && fh == file.height,
            nframes == file.frames@.len(),
        decreases fh - y,
    {
        let mut k: usize = 0;
        while k < nframes
            invariant
                k <= nframes,
                y < fh,
                gif::frames_ok(*file),
                fw == file.width && fh == file.height,
                nframes == file.frames@.len(),
            decreases nframes - k,
        {
            let frame = &file.frames[k];
            assert(frame.image.pixels@.len() == fw * fh);
            assert(y * fw + fw <= fw * fh) by (nonlinear_arith)
                requires
                    y < fh,
            ;
            let _n = frame.image.pixels.len();
            let mut x: usize = 0;
            while x < fw
                invariant
                    x <= fw,
                    y * fw + fw <= _n,
                    _n == frame.image.pixels@.len(),
                decreases fw - x,
            {
                out.push(frame.image.pixels[y * fw + x]);
                x = x + 1;
            }
            k = k + 1;
        }
        y = y + 1;
    }
    Ok(legacy_native::Image { width, height: file.height, pixels: out })
}

/// Renders the decoded GIF `file`, read from an input of `input_len` bytes:
/// the selected frame (or the sprite sheet of all frames) as PNG bytes and
/// the conversion's report.
pub fn render(file: &gif::GifFile, options: &Options, input_len: usize) -> (r: Result<(Report, Vec<u8>), Error>)
    requires
        gif::frames_ok(*file),
        file.width <= 0xFFFF && file.height <= 0xFFFF,
        file.frames@.len() <= u32::MAX,
    ensures
        r matches Ok((report, bytes)) ==> exists|t: png_codec::Image|
            #[trigger] png_codec::encoded(t, png_codec::Filter::Adaptive) == bytes@ && t.width == report.width
                && t.height == report.height && bytes@.len() == report.output_bytes && (OPERATION
                == Operation::Frame ==> {
                let frame = file.frames@[options.frame_index as int].image;
                &&& options.frame_index < file.frames@.len()
                &&& t.width == frame.width && t.height == frame.height
                &&& t.pixels@.len() == frame.pixels@.len()
                &&& forall|i: int| 0 <= i < t.pixels@.len() ==> #[trigger] t.pixels@[i] == widen(frame.pixels@[i])
            }),
        r matches Ok((report, bytes)) ==> report.source_frames == file.frames@.len() && (OPERATION
            == Operation::Frame ==> report.selected_frame == Some(options.frame_index)),
        OPERATION == Operation::Frame && options.frame_index >= file.frames@.len() ==> r matches Err(
            Error::InvalidOptions(_),
        ),
{
    let source_frames = file.frames.len() as u32;
    let target: legacy_native::Image;
    let selected_frame: Option<u32>;
    if OPERATION == Operation::Frame {
        if options.frame_index as usize >= file.frames.len() {
            return Err(Error::InvalidOptions("frame_index is outside the GIF frame set"));
        }
        target = copy_image(&file.frames[options.frame_index as usize].image);
        selected_frame = Some(options.frame_index);
    } else {
        target = match sprite_sheet(file, options) {
            Ok(t) => t,
            Err(e) => return Err(e),
        };
        selected_frame = None;
    }
    let target_width = target.width;
    let target_height = target.height;
    let n = target.pixels.len() as u64;
    let pixel_memory = if n <= u64::MAX / 4 { n * 4 } else { u64::MAX };
    let png = match png_codec::encode(&png_image(&target), png_codec::Filter::Adaptive) {
        Ok(v) => v,
        Err(e) => return Err(Error::InvalidInput(e.to_string())),
    };
    let output_bytes = png.len() as u64;
    Ok(
        (Report {
            input_bytes: input_len as u64,
            output_bytes,
            source_width: file.width,
            source_height: file.height,
            source_frames,
            width: target_width,
            height: target_height,
            selected_frame,
            peak_working_memory_bytes: (input_len as u64).saturating_add(pixel_memory).saturating_add(output_bytes),
            strategy: if OPERATION == Operation::Frame {
                "gif-composited-frame-selection"
            } else {
                "gif-horizontal-composited-sprite-sheet"
            },
            backend: "native-portable",
            warnings: Vec::new(),
        }, png),
    )
}

/// A two-frame animation: the exact-palette fixture image shown twice.
pub fn animation_fixture() -> (v: Vec<u8>) {
    let mut pixels: Vec<legacy_native::Pixel> = Vec::new();
    pixels.push(legacy_native::Pixel { r: 0, g: 0, b: 0, a: 255 });
    pixels.push(legacy_native::Pixel { r: 255, g: 0, b: 0, a: 255 });
    pixels.push(legacy_native::Pixel { r: 0, g: 255, b: 0, a: 255 });
    pixels.push(legacy_native::Pixel { r: 0, g: 0, b: 255, a: 255 });
    pixels.push(legacy_native::Pixel { r: 255, g: 255, b: 0, a: 255 });
    pixels.push(legacy_native::Pixel { r: 255, g: 255, b: 255, a: 255 });
    let image = legacy_native::Image { width: 3, height: 2, pixels };
    let mut g = match gif::encode_gif(&image) {
        Ok(v) => v,
        Err(_) => return Vec::new(),
    };
    let table_entries: usize = if g.len() > 10 {
        let bits = (g[10] % 8) as u32 + 1;
        proof {
            crate::extended::lemma_two_pow_mono(bits as nat, 8);
            crate::extended::lemma_two_pow_is_pow2(8);
            vstd::arithmetic::power2::lemma2_to64();
        }
        crate::png_codec::pow2_small(bits) as usize
    } else {
        return Vec::new();
    };
    assert(table_entries <= 256);
    let image_start = 13 + table_entries * 3;
    if image_start >= g.len() {
        return Vec::new();
    }
    let mut frame: Vec<u8> = Vec::new();
    crate::bytes::push_range(&mut frame, g.as_slice(), image_start, g.len() - 1 - image_start);
    g.pop();
    crate::bytes::push_range(&mut g, frame.as_slice(), 0, frame.len());
    g.push(0x3bu8);
    g
}

pub fn conformance_fixture() -> (v: Vec<u8>) {
    animation_fixture()
}

} // verus!
