//! The raster carrier shared by GIF, ICO/CUR and PNG conversions: 8-bit RGBA
//! pixels, with the glue that moves images between the native codecs and the
//! carrier.
use vstd::prelude::*;
use crate::legacy_native;
use crate::legacy_native::icon::IconKind;
use crate::png_codec;
use crate::text::{push_decimal, str_eq};

verus! {

pub const DEFAULT_MAX_PIXELS: u64 = 100_000_000;

#[derive(Debug, Clone, Copy, PartialEq, Eq, Structural)]
pub struct Pixel {
    pub r: u8,
    pub g: u8,
    pub b: u8,
    pub a: u8,
}

#[derive(Debug, Clone, PartialEq, Eq)]
pub struct Image {
    pub width: u32,
    pub height: u32,
    pub source_channels: u8,
    pub pixels: Vec<Pixel>,
    pub warnings: Vec<String>,
}

#[derive(Debug, Clone, PartialEq, Eq)]
pub struct Options {
    pub max_pixels: u64,
    pub max_frames: u32,
    pub max_input_bytes: u64,
    pub max_members: u32,
    pub cursor_hotspot_x: u16,
    pub cursor_hotspot_y: u16,
    pub strict_trailing_data: bool,
    pub allow_sample_scaling: bool,
}

/// Encoded bytes with the channel count they carry.
#[derive(Debug, Clone, PartialEq, Eq)]
pub struct Encoded {
    pub bytes: Vec<u8>,
    pub channels: u8,
    pub alpha_action: &'static str,
}

#[derive(Debug)]
pub enum Error {
    Legacy(String),
    Png(String),
    InvalidHeader(&'static str),
    Unsupported(&'static str),
    PixelLimitExceeded { pixels: u64, limit: u64 },
}

/// A 16-bit sample rounded to the nearest 8-bit code value.
pub open spec fn to8(v: u16) -> u8 {
    ((v + 128) / 257) as u8
}

pub open spec fn native_pixel(p: legacy_native::Pixel) -> Pixel {
    Pixel { r: p.r, g: p.g, b: p.b, a: p.a }
}

pub open spec fn carrier_pixel(p: Pixel) -> legacy_native::Pixel {
    legacy_native::Pixel { r: p.r, g: p.g, b: p.b, a: p.a }
}

pub open spec fn scaled_pixel(p: png_codec::Pixel16) -> Pixel {
    Pixel { r: to8(p.r), g: to8(p.g), b: to8(p.b), a: to8(p.a) }
}

pub open spec fn wide_pixel(p: Pixel) -> png_codec::Pixel16 {
    png_codec::Pixel16 { r: (p.r * 257) as u16, g: (p.g * 257) as u16, b: (p.b * 257) as u16, a: (p.a * 257) as u16 }
}

/// Whether some pixel is not fully opaque.
pub open spec fn any_translucent(px: Seq<Pixel>) -> bool {
    exists|i: int| 0 <= i < px.len() && #[trigger] px[i].a != 255
}

/// The carrier image of a native image.
pub fn native_to_image(native: legacy_native::Image, source_channels: u8) -> (image: Image)
    ensures
        image.width == native.width,
        image.height == native.height,
        image.source_channels == source_channels,
        image.pixels@ == native.pixels@.map_values(|p: legacy_native::Pixel| native_pixel(p)),
        image.warnings@.len() == 0,
{
    let mut pixels: Vec<Pixel> = Vec::new();
    let mut i: usize = 0;
    while i < native.pixels.len()
        invariant
            i <= native.pixels@.len(),
            pixels@ == native.pixels@.take(i as int).map_values(|p: legacy_native::Pixel| native_pixel(p)),
        decreases native.pixels@.len() - i,
    {
        let p = native.pixels[i];
        pixels.push(Pixel { r: p.r, g: p.g, b: p.b, a: p.a });
        assert(native.pixels@.take(i + 1) == native.pixels@.take(i as int).push(p));
        i = i + 1;
    }
    assert(native.pixels@.take(i as int) =~= native.pixels@);
    Image { width: native.width, height: native.height, source_channels, pixels, warnings: Vec::new() }
}

/// The native image of a carrier image.
pub fn image_to_native(image: &Image) -> (native: legacy_native::Image)
    ensures
        native.width == image.width,
        native.height == image.height,
        native.pixels@ == image.pixels@.map_values(|p: Pixel| carrier_pixel(p)),
{
    let mut pixels: Vec<legacy_native::Pixel> = Vec::new();
    let mut i: usize = 0;
    while i < image.pixels.len()
        invariant
            i <= image.pixels@.len(),
            pixels@ == image.pixels@.take(i as int).map_values(|p: Pixel| carrier_pixel(p)),
        decreases image.pixels@.len() - i,
    {
        let p = image.pixels[i];
        pixels.push(legacy_native::Pixel { r: p.r, g: p.g, b: p.b, a: p.a });
        assert(image.pixels@.take(i + 1) == image.pixels@.take(i as int).push(p));
        i = i + 1;
    }
    assert(image.pixels@.take(i as int) =~= image.pixels@);
    legacy_native::Image { width: image.width, height: image.height, pixels }
}

/// The carrier error for a native codec error: the pixel limit keeps its
/// kind, everything else becomes a `Legacy` message.
pub fn legacy_error(error: legacy_native::Error) -> (e: Error)
    ensures
        (error matches legacy_native::Error::Limit(s) && s@ == "pixel count"@) ==> e
            == (Error::PixelLimitExceeded { pixels: 100_000_001u64, limit: DEFAULT_MAX_PIXELS }),
        !(error matches legacy_native::Error::Limit(s) && s@ == "pixel count"@) ==> e is Legacy,
{
    if let legacy_native::Error::Limit(s) = error {
        if str_eq(s, "pixel count") {
            return Error::PixelLimitExceeded { pixels: DEFAULT_MAX_PIXELS + 1, limit: DEFAULT_MAX_PIXELS };
        }
    }
    Error::Legacy(error.to_string())
}

/// The carrier error for a PNG codec error under the pixel limit `max_pixels`.
fn png_error(error: png_codec::Error, max_pixels: u64) -> (e: Error)
    ensures
        (error matches png_codec::Error::Limit(s) && s@ == "pixel count"@) ==> e
            == (Error::PixelLimitExceeded {
            pixels: if max_pixels == u64::MAX { max_pixels } else { (max_pixels + 1) as u64 },
            limit: max_pixels,
        }),
        !(error matches png_codec::Error::Limit(s) && s@ == "pixel count"@) ==> e is Png,
{
    if let png_codec::Error::Limit(s) = error {
        if str_eq(s, "pixel count") {
            return Error::PixelLimitExceeded { pixels: max_pixels.saturating_add(1), limit: max_pixels };
        }
    }
    Error::Png(error.to_string())
}

/// Pixels of a decoded PNG rounded to 8-bit code values.
fn scale_pixels(px: &Vec<png_codec::Pixel16>) -> (r: Vec<Pixel>)
    ensures
        r@ == px@.map_values(|p: png_codec::Pixel16| scaled_pixel(p)),
{
    let mut out: Vec<Pixel> = Vec::new();
    let mut i: usize = 0;
    while i < px.len()
        invariant
            i <= px@.len(),
            out@ == px@.take(i as int).map_values(|p: png_codec::Pixel16| scaled_pixel(p)),
        decreases px@.len() - i,
    {
        let p = px[i];
        out.push(
            Pixel {
                r: ((p.r as u32 + 128) / 257) as u8,
                g: ((p.g as u32 + 128) / 257) as u8,
                b: ((p.b as u32 + 128) / 257) as u8,
                a: ((p.a as u32 + 128) / 257) as u8,
            },
        );
        assert(px@.take(i + 1) == px@.take(i as int).push(p));
        i = i + 1;
    }
    assert(px@.take(i as int) =~= px@);
    out
}

/// Whether some pixel of `px` is not fully opaque.
pub fn has_translucent(px: &Vec<Pixel>) -> (r: bool)
    ensures
        r == any_translucent(px@),
{
    let mut i: usize = 0;
    while i < px.len()
        invariant
            i <= px@.len(),
            forall|j: int| 0 <= j < i ==> #[trigger] px@[j].a == 255,
        decreases px@.len() - i,
    {
        if px[i].a != 255 {
            return true;
        }
        i = i + 1;
    }
    false
}

/// Decodes a single-frame GIF into the carrier.
pub fn decode_gif(bytes: &[u8], options: &Options) -> (r: Result<Image, Error>)
    ensures
        r matches Ok(img) ==> img.source_channels == 4 && img.warnings@.len() == 0,
        r is Ok ==> bytes@.len() >= 13 && bytes@[bytes@.len() - 1] == 0x3b && (
        legacy_native::gif::gif_signature(bytes@, 0x37) || legacy_native::gif::gif_signature(bytes@, 0x39)),
{
    let file = match legacy_native::gif::decode_gif(
        bytes,
        options.max_pixels,
        options.max_frames,
        options.max_input_bytes as usize,
    ) {
        Ok(f) => f,
        Err(e) => return Err(legacy_error(e)),
    };
    if file.frames.len() != 1 {
        return Err(Error::Unsupported("animated GIF requires an explicit frame or sprite-sheet Capsule"));
    }
    let mut frames = file.frames;
    let frame = frames.remove(0);
    Ok(native_to_image(frame.image, 4))
}

pub open spec fn scaling_note() -> Seq<char> {
    "PNG 16-bit samples explicitly scaled to 8-bit code values"@
}

/// The carrier image of a decoded PNG: 16-bit sources need
/// `allow_sample_scaling`, and every sample is rounded to 8 bits.
pub fn carrier_from_png(decoded: png_codec::Image, allow_sample_scaling: bool) -> (r: Result<Image, Error>)
    ensures
        decoded.source_bit_depth == 16 && !allow_sample_scaling ==> r matches Err(
            Error::Unsupported(_),
        ),
        !(decoded.source_bit_depth == 16 && !allow_sample_scaling) ==> (r matches Ok(img)
            && img.width == decoded.width && img.height == decoded.height && img.source_channels
            == decoded.source_channels && img.pixels@ == decoded.pixels@.map_values(
            |p: png_codec::Pixel16| scaled_pixel(p),
        ) && img.warnings@.map_values(|w: String| w@) == decoded.warnings@.map_values(
            |w: String| w@,
        ) + (if decoded.source_bit_depth == 16 {
            seq![scaling_note()]
        } else {
            seq![]
        })),
{
    if decoded.source_bit_depth == 16 && !allow_sample_scaling {
        return Err(Error::Unsupported("16-bit PNG to an 8-bit carrier requires allow_sample_scaling"));
    }
    let pixels = scale_pixels(&decoded.pixels);
    let mut warnings = decoded.warnings;
    let ghost before = warnings@;
    if decoded.source_bit_depth == 16 {
        warnings.push(crate::text::note("PNG 16-bit samples explicitly scaled to 8-bit code values"));
        assert(warnings@.map_values(|w: String| w@) =~= before.map_values(|w: String| w@).push(
            scaling_note(),
        ));
    } else {
        assert(warnings@.map_values(|w: String| w@) =~= before.map_values(|w: String| w@) + seq![]);
    }
    Ok(
        Image {
            width: decoded.width,
            height: decoded.height,
            source_channels: decoded.source_channels,
            pixels,
            warnings,
        },
    )
}

/// Decodes a PNG into the carrier.
pub fn decode_png(bytes: &[u8], options: &Options) -> (r: Result<Image, Error>)
    ensures
        (bytes@.len() < 8 || bytes@.subrange(0, 8) != png_codec::signature()) ==> r matches Err(
            Error::Png(_),
        ),
{
    let decoded = match png_codec::decode(
        bytes,
        &png_codec::DecodeOptions {
            max_pixels: options.max_pixels,
            max_inflate_bytes: options.max_input_bytes,
            strict_crc: true,
            strict_trailing_data: options.strict_trailing_data,
        },
    ) {
        Ok(d) => d,
        Err(e) => return Err(png_error(e, options.max_pixels)),
    };
    carrier_from_png(decoded, options.allow_sample_scaling)
}

/// The PNG image a carrier image is encoded from: 8-bit RGB, or RGBA when
/// some pixel is translucent, with every sample widened to 16 bits.
pub open spec fn png_source_ok(n: png_codec::Image, image: Image) -> bool {
    let alpha = any_translucent(image.pixels@);
    &&& n.width == image.width
    &&& n.height == image.height
    &&& n.source_channels == (if alpha { 4u8 } else { 3u8 })
    &&& n.source_bit_depth == 8
    &&& n.source_color_type == (if alpha { 6u8 } else { 2u8 })
    &&& !n.interlaced
    &&& n.pixels@ == image.pixels@.map_values(|p: Pixel| wide_pixel(p))
    &&& n.warnings@.len() == 0
}

fn widen_pixels(px: &Vec<Pixel>) -> (r: Vec<png_codec::Pixel16>)
    ensures
        r@ == px@.map_values(|p: Pixel| wide_pixel(p)),
{
    let mut out: Vec<png_codec::Pixel16> = Vec::new();
    let mut i: usize = 0;
    while i < px.len()
        invariant
            i <= px@.len(),
            out@ == px@.take(i as int).map_values(|p: Pixel| wide_pixel(p)),
        decreases px@.len() - i,
    {
        let p = px[i];
        out.push(
            png_codec::Pixel16 {
                r: p.r as u16 * 257,
                g: p.g as u16 * 257,
                b: p.b as u16 * 257,
                a: p.a as u16 * 257,
            },
        );
        assert(px@.take(i + 1) == px@.take(i as int).push(p));
        i = i + 1;
    }
    assert(px@.take(i as int) =~= px@);
    out
}

/// Encodes a carrier image as an adaptively filtered PNG.
pub fn encode_png(image: &Image) -> (r: Result<Encoded, Error>)
    ensures
        exists|n: png_codec::Image|
            png_source_ok(n, *image) && (r is Ok <==> png_codec::encodable(n)) && (r matches Ok(e)
                ==> e.bytes@ == png_codec::encoded(n, png_codec::Filter::Adaptive)),
        r matches Ok(e) ==> e.channels == (if any_translucent(image.pixels@) { 4u8 } else { 3u8 })
            && e.alpha_action == "preserved",
        r matches Err(e) ==> e is Png,
{
    let alpha = has_translucent(&image.pixels);
    let native = png_codec::Image {
        width: image.width,
        height: image.height,
        source_channels: if alpha { 4 } else { 3 },
        source_bit_depth: 8,
        source_color_type: if alpha { 6 } else { 2 },
        interlaced: false,
        pixels: widen_pixels(&image.pixels),
        warnings: Vec::new(),
    };
    assert(png_source_ok(native, *image));
    let bytes = match png_codec::encode(&native, png_codec::Filter::Adaptive) {
        Ok(b) => b,
        Err(e) => return Err(Error::Png(e.to_string())),
    };
    Ok(Encoded { bytes, channels: if alpha { 4 } else { 3 }, alpha_action: "preserved" })
}

/// Encodes a carrier image as a GIF with an exact palette.
pub fn encode_gif(image: &Image) -> (r: Result<Encoded, Error>)
    ensures
        r matches Ok(e) ==> {
            &&& e.channels == (if any_translucent(image.pixels@) { 4u8 } else { 3u8 })
            &&& e.alpha_action == "preserved-for-binary-alpha-exact-palette"
            &&& image.pixels@.len() == image.width * image.height
            &&& e.bytes@.len() >= 13
            &&& e.bytes@.subrange(0, 6) == seq![0x47u8, 0x49, 0x46, 0x38, 0x39, 0x61]
            &&& crate::bytes::le16(e.bytes@, 6) == image.width
            &&& crate::bytes::le16(e.bytes@, 8) == image.height
        },
        r is Ok <==> ({
            let px = image.pixels@.map_values(|p: Pixel| carrier_pixel(p));
            &&& 1 <= image.width && 1 <= image.height && image.width * image.height <= usize::MAX
            &&& image.pixels@.len() == image.width * image.height
            &&& image.width <= 65535 && image.height <= 65535
            &&& legacy_native::gif::binary_alpha(px)
            &&& legacy_native::gif::gif_colors(px).len() <= 256
        }),
{
    let native = image_to_native(image);
    let bytes = match legacy_native::gif::encode_gif(&native) {
        Ok(b) => b,
        Err(e) => return Err(legacy_error(e)),
    };
    let alpha = has_translucent(&image.pixels);
    Ok(Encoded { bytes, channels: if alpha { 4 } else { 3 }, alpha_action: "preserved-for-binary-alpha-exact-palette" })
}

/// The note recording which directory member an icon decode used.
pub open spec fn selection_note(count: int, width: int, height: int, png: bool) -> Seq<char> {
    "selected best member from "@ + crate::text::decimal(count as nat) + " entries: "@
        + crate::text::decimal(width as nat) + "x"@ + crate::text::decimal(height as nat) + ", "@
        + (if png { "PNG"@ } else { "DIB"@ }) + " payload"@
}

fn selection_message(count: u64, width: u32, height: u32, png: bool) -> (s: String)
    ensures
        s@ == selection_note(count as int, width as int, height as int, png),
{
    let mut s = String::from_str("selected best member from ");
    push_decimal(&mut s, count);
    s.append(" entries: ");
    push_decimal(&mut s, width as u64);
    s.append("x");
    push_decimal(&mut s, height as u64);
    s.append(", ");
    if png {
        s.append("PNG");
    } else {
        s.append("DIB");
    }
    s.append(" payload");
    s
}

/// Decodes the best member of an ICO/CUR directory into the carrier.
pub fn decode_icon(bytes: &[u8], options: &Options, kind: IconKind) -> (r: Result<Image, Error>)
    ensures
        r matches Ok(img) ==> exists|ms: Seq<legacy_native::icon::IconMember>, k: int|
            {
                &&& legacy_native::icon::directory_ok(bytes@, kind, options.max_members, ms)
                &&& 0 <= k < ms.len()
                &&& forall|i: int|
                    0 <= i < ms.len() ==> legacy_native::icon::rank_le(
                        legacy_native::icon::rank(#[trigger] ms[i]),
                        legacy_native::icon::rank(ms[k]),
                    )
                &&& img.width == ms[k].width && img.height == ms[k].height
                &&& img.warnings@.map_values(|w: String| w@) == seq![
                    selection_note(ms.len() as int, ms[k].width as int, ms[k].height as int, ms[k].png),
                ]
            },
{
    let members = match legacy_native::icon::parse_icon(bytes, kind, options.max_members) {
        Ok(m) => m,
        Err(e) => return Err(legacy_error(e)),
    };
    let k = match legacy_native::icon::select_best(&members) {
        Ok(k) => k,
        Err(e) => return Err(legacy_error(e)),
    };
    let selected = members[k];
    let _len = bytes.len();
    assert(6 + 16 * members@.len() <= members@[k as int].offset);
    let payload = &bytes[selected.offset..selected.offset + selected.size];
    let mut image = if selected.png {
        let decoded = match png_codec::decode(
            payload,
            &png_codec::DecodeOptions {
                max_pixels: options.max_pixels,
                max_inflate_bytes: options.max_input_bytes,
                strict_crc: true,
                strict_trailing_data: true,
            },
        ) {
            Ok(d) => d,
            Err(e) => return Err(png_error(e, options.max_pixels)),
        };
        Image {
            width: decoded.width,
            height: decoded.height,
            source_channels: decoded.source_channels,
            pixels: scale_pixels(&decoded.pixels),
            warnings: Vec::new(),
        }
    } else {
        let dib = match legacy_native::icon::decode_dib(payload, options.max_pixels) {
            Ok(d) => d,
            Err(e) => return Err(legacy_error(e)),
        };
        native_to_image(dib, 4)
    };
    if image.width != selected.width || image.height != selected.height {
        return Err(Error::InvalidHeader("ICO/CUR directory dimensions disagree with selected member"));
    }
    let note = selection_message(members.len() as u64, selected.width, selected.height, selected.png);
    image.warnings = Vec::new();
    image.warnings.push(note);
    assert(image.warnings@.map_values(|w: String| w@) =~= seq![
        selection_note(members@.len() as int, selected.width as int, selected.height as int, selected.png),
    ]);
    Ok(image)
}

/// Encodes a carrier image as a one-member ICO/CUR file holding a PNG.
pub fn encode_icon(image: &Image, options: &Options, kind: IconKind) -> (r: Result<Encoded, Error>)
    ensures
        r matches Ok(e) ==> exists|n: png_codec::Image|
            {
                &&& png_source_ok(n, *image)
                &&& png_codec::encodable(n)
                &&& e.bytes@ == legacy_native::icon::icon_file(
                    png_codec::encoded(n, png_codec::Filter::Adaptive),
                    image.width,
                    image.height,
                    kind,
                    options.cursor_hotspot_x,
                    options.cursor_hotspot_y,
                )
                &&& e.channels == (if any_translucent(image.pixels@) { 4u8 } else { 3u8 })
                &&& e.alpha_action == "preserved-in-single-png-member"
            },
        exists|n: png_codec::Image|
            {
                &&& png_source_ok(n, *image)
                &&& (r is Ok <==> (png_codec::encodable(n) && png_codec::encoded(n, png_codec::Filter::Adaptive).len()
                    <= u32::MAX && 1 <= image.width <= 256 && 1 <= image.height <= 256 && (kind
                    == IconKind::Cursor ==> options.cursor_hotspot_x < image.width && options.cursor_hotspot_y
                    < image.height)))
            },
{
    let png = match encode_png(image) {
        Ok(p) => p,
        Err(e) => {
            return Err(e);
        },
    };
    let ghost n = choose|n: png_codec::Image|
        png_source_ok(n, *image) && png_codec::encodable(n) && png.bytes@ == png_codec::encoded(
            n,
            png_codec::Filter::Adaptive,
        );
    let bytes = match legacy_native::icon::encode_icon(
        png.bytes.as_slice(),
        image.width,
        image.height,
        kind,
        options.cursor_hotspot_x,
        options.cursor_hotspot_y,
    ) {
        Ok(b) => b,
        Err(e) => {
            assert(png_source_ok(n, *image));
            return Err(legacy_error(e));
        },
    };
    assert(png_source_ok(n, *image));
    Ok(Encoded { bytes, channels: png.channels, alpha_action: "preserved-in-single-png-member" })
}

} // verus!
