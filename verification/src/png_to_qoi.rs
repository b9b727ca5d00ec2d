//! Raster conversion between BMP, TGA, QOI, PPM, PAM and PNG over an RGBA8
//! pixel grid. The capsule is built for one pair (`SOURCE` to `TARGET`).
use vstd::prelude::*;
use crate::png_codec;

pub mod bmp;
pub mod netpbm;
pub mod qoi;
pub mod tga;

verus! {

#[derive(Debug, Clone, Copy, PartialEq, Eq, Structural)]
pub enum Profile {
    Bmp,
    Tga,
    Qoi,
    Ppm,
    Pam,
    Png,
}

pub const SOURCE: Profile = Profile::Png;

pub const TARGET: Profile = Profile::Qoi;

/// The short name of a raster profile.
pub open spec fn profile_label(p: Profile) -> &'static str {
    match p {
        Profile::Bmp => "bmp",
        Profile::Tga => "tga",
        Profile::Qoi => "qoi",
        Profile::Ppm => "ppm",
        Profile::Pam => "pam",
        Profile::Png => "png",
    }
}

impl Profile {
    pub fn name(self) -> (r: &'static str)
        ensures
            r == profile_label(self),
    {
        match self {
            Profile::Bmp => "bmp",
            Profile::Tga => "tga",
            Profile::Qoi => "qoi",
            Profile::Ppm => "ppm",
            Profile::Pam => "pam",
            Profile::Png => "png",
        }
    }
}

#[derive(Debug, Clone, Copy, PartialEq, Eq, Structural)]
pub enum AlphaPolicy {
    /// Reject non-opaque pixels instead of silently losing transparency.
    Reject,
    /// Retain RGB code values and remove the alpha channel.
    Discard,
    /// Composite unassociated RGBA code values over black using integer arithmetic.
    CompositeBlack,
}

#[derive(Debug, Clone, PartialEq, Eq)]
pub struct Options {
    pub max_pixels: u64,
    pub max_input_bytes: u64,
    pub strict_trailing_data: bool,
    pub ppm_alpha: AlphaPolicy,
    pub preserve_unmarked_bmp_alpha: bool,
    pub allow_sample_scaling: bool,
    pub tga_rle: bool,
}

impl Default for Options {
    fn default() -> (o: Self)
        ensures
            o.max_pixels == 100_000_000,
            o.max_input_bytes == 512 * 1024 * 1024,
            o.strict_trailing_data,
            o.ppm_alpha == AlphaPolicy::Reject,
            !o.preserve_unmarked_bmp_alpha,
            !o.allow_sample_scaling,
            o.tga_rle,
    {
        Options {
            max_pixels: 100_000_000,
            max_input_bytes: 536_870_912,
            strict_trailing_data: true,
            ppm_alpha: AlphaPolicy::Reject,
            preserve_unmarked_bmp_alpha: false,
            allow_sample_scaling: false,
            tga_rle: true,
        }
    }
}

#[derive(Debug, Clone, PartialEq, Eq)]
pub struct Report {
    pub input_bytes: u64,
    pub output_bytes: u64,
    pub width: u32,
    pub height: u32,
    pub pixels: u64,
    pub source_profile: &'static str,
    pub target_profile: &'static str,
    pub source_channels: u8,
    pub target_channels: u8,
    pub non_opaque_pixels: u64,
    pub alpha_action: &'static str,
    pub peak_working_memory_bytes: u64,
    pub strategy: &'static str,
    pub backend: &'static str,
    pub warnings: Vec<String>,
}

#[derive(Debug)]
pub enum Error {
    InvalidOptions(&'static str),
    InputTooLarge { bytes: u64, limit: u64 },
    InvalidSignature(&'static str),
    InvalidHeader(&'static str),
    Unsupported(&'static str),
    Truncated(&'static str),
    PixelLimitExceeded { pixels: u64, limit: u64 },
    AlphaNotRepresentable { non_opaque_pixels: u64 },
    TrailingData { bytes: usize },
    IntegerOverflow(&'static str),
    Png(String),
}

#[derive(Debug, Clone, Copy, PartialEq, Eq, Structural)]
pub struct Pixel {
    pub r: u8,
    pub g: u8,
    pub b: u8,
    pub a: u8,
}

#[derive(Debug, Clone)]
pub struct Image {
    pub width: u32,
    pub height: u32,
    pub source_channels: u8,
    pub pixels: Vec<Pixel>,
    pub warnings: Vec<String>,
}

#[derive(Debug)]
pub struct Encoded {
    pub bytes: Vec<u8>,
    pub channels: u8,
    pub alpha_action: &'static str,
}

/// The image's pixel count matches its dimensions.
pub open spec fn pixels_ok(img: Image) -> bool {
    img.pixels@.len() == img.width * img.height
}

/// The pixel count of a `width` by `height` image, within the limit.
pub fn checked_pixels(width: u32, height: u32, options: &Options) -> (r: Result<usize, Error>)
    ensures
        r is Ok <==> (1 <= width && 1 <= height && width * height <= options.max_pixels
            && width * height <= usize::MAX),
        r matches Ok(n) ==> n == width * height,
        r matches Err(Error::PixelLimitExceeded { pixels, limit }) ==> pixels == width * height
            && limit == options.max_pixels && pixels > limit,
        r matches Err(e) ==> e is InvalidHeader || e is PixelLimitExceeded || e is IntegerOverflow,
{
    if width == 0 || height == 0 {
        return Err(Error::InvalidHeader("width and height must be non-zero"));
    }
    assert(width as int * height as int <= 0xFFFF_FFFF * 0xFFFF_FFFF) by (nonlinear_arith)
        requires
            width <= 0xFFFF_FFFF,
            height <= 0xFFFF_FFFF,
    ;
    let count = width as u64 * height as u64;
    if count > options.max_pixels {
        return Err(Error::PixelLimitExceeded { pixels: count, limit: options.max_pixels });
    }
    if count > usize::MAX as u64 {
        return Err(Error::IntegerOverflow("pixel allocation"));
    }
    Ok(count as usize)
}

/// A 16-bit sample rounded to eight bits.
pub open spec fn to8(v: u16) -> u8 {
    ((v + 128) / 257) as u8
}

/// Decodes a PNG into 8-bit pixels; 16-bit sources need sample scaling.
pub fn decode_png(bytes: &[u8], options: &Options) -> (r: Result<Image, Error>)
    ensures
        r matches Ok(img) ==> exists|n: png_codec::Image|
            #[trigger] png_codec::header_of(
                bytes@,
                png_codec::DecodeOptions {
                    max_pixels: options.max_pixels,
                    max_inflate_bytes: options.max_input_bytes,
                    strict_crc: true,
                    strict_trailing_data: options.strict_trailing_data,
                },
                n,
            ) && img.width == n.width && img.height == n.height && img.pixels@.len()
                == n.pixels@.len() && (forall|i: int|
                0 <= i < n.pixels@.len() ==> #[trigger] img.pixels@[i] == (Pixel {
                    r: to8(n.pixels@[i].r),
                    g: to8(n.pixels@[i].g),
                    b: to8(n.pixels@[i].b),
                    a: to8(n.pixels@[i].a),
                })) && (n.source_bit_depth == 16 ==> options.allow_sample_scaling),
{
    let decode_options = png_codec::DecodeOptions {
        max_pixels: options.max_pixels,
        max_inflate_bytes: options.max_input_bytes,
        strict_crc: true,
        strict_trailing_data: options.strict_trailing_data,
    };
    let decoded = match png_codec::decode(bytes, &decode_options) {
        Ok(d) => d,
        Err(e) => {
            let is_pixel_limit = match &e {
                png_codec::Error::Limit(v) => crate::text::str_eq(*v, "pixel count"),
                _ => false,
            };
            if is_pixel_limit {
                return Err(Error::PixelLimitExceeded {
                    pixels: if options.max_pixels < u64::MAX { options.max_pixels + 1 } else { u64::MAX },
                    limit: options.max_pixels,
                });
            }
            return Err(Error::Png(e.to_string()));
        },
    };
    if decoded.source_bit_depth == 16 && !options.allow_sample_scaling {
        return Err(Error::Unsupported("16-bit PNG to an 8-bit carrier requires allow_sample_scaling"));
    }
    let mut pixels: Vec<Pixel> = Vec::new();
    let mut i: usize = 0;
    while i < decoded.pixels.len()
        invariant
            i <= decoded.pixels@.len(),
            pixels@.len() == i,
            forall|j: int| 0 <= j < i ==> #[trigger] pixels@[j] == (Pixel {
                r: to8(decoded.pixels@[j].r),
                g: to8(decoded.pixels@[j].g),
                b: to8(decoded.pixels@[j].b),
                a: to8(decoded.pixels@[j].a),
            }),
        decreases decoded.pixels@.len() - i,
    {
        let p = decoded.pixels[i];
        pixels.push(
            Pixel {
                r: ((p.r as u32 + 128) / 257) as u8,
                g: ((p.g as u32 + 128) / 257) as u8,
                b: ((p.b as u32 + 128) / 257) as u8,
                a: ((p.a as u32 + 128) / 257) as u8,
            },
        );
        i = i + 1;
    }
    let ghost n = decoded;
    let mut warnings = decoded.warnings;
    if decoded.source_bit_depth == 16 {
        warnings.push(crate::text::note("PNG 16-bit samples explicitly scaled to 8-bit code values"));
    }
    Ok(Image {
        width: decoded.width,
        height: decoded.height,
        source_channels: decoded.source_channels,
        pixels,
        warnings,
    })
}

/// The 16-bit pixel an 8-bit pixel widens to.
pub open spec fn widen(p: Pixel) -> png_codec::Pixel16 {
    png_codec::Pixel16 { r: (p.r * 257) as u16, g: (p.g * 257) as u16, b: (p.b * 257) as u16, a: (p.a * 257) as u16 }
}

/// Encodes `image` as a canonical 8-bit PNG.
pub fn encode_png(image: &Image) -> (r: Result<Encoded, Error>)
    requires
        image.pixels@.len() == image.width * image.height,
    ensures
        r matches Ok(e) ==> exists|n: png_codec::Image|
            #[trigger] png_codec::encoded(n, png_codec::Filter::Adaptive) == e.bytes@ && n.width
                == image.width && n.height == image.height && n.source_bit_depth == 8
                && n.pixels@.len() == image.pixels@.len() && (forall|i: int|
                0 <= i < n.pixels@.len() ==> #[trigger] n.pixels@[i] == widen(image.pixels@[i])),
        (image.width >= 1 && image.height >= 1 && image.width * 4 <= usize::MAX) ==> r is Ok,
{
    let alpha = qoi::any_alpha(&image.pixels);
    let mut pixels: Vec<png_codec::Pixel16> = Vec::new();
    let mut i: usize = 0;
    while i < image.pixels.len()
        invariant
            i <= image.pixels@.len(),
            pixels@.len() == i,
            forall|j: int| 0 <= j < i ==> #[trigger] pixels@[j] == widen(image.pixels@[j]),
        decreases image.pixels@.len() - i,
    {
        let p = image.pixels[i];
        pixels.push(
            png_codec::Pixel16 {
                r: p.r as u16 * 257,
                g: p.g as u16 * 257,
                b: p.b as u16 * 257,
                a: p.a as u16 * 257,
            },
        );
        i = i + 1;
    }
    let native = png_codec::Image {
        width: image.width,
        height: image.height,
        source_channels: if alpha { 4 } else { 3 },
        source_bit_depth: 8,
        source_color_type: if alpha { 6 } else { 2 },
        interlaced: false,
        pixels,
        warnings: Vec::new(),
    };
    proof {
        let bpp = png_codec::bytes_per_pixel(native);
        assert(bpp <= 4);
        assert(native.width * bpp <= native.width * 4) by (nonlinear_arith)
            requires
                bpp <= 4,
        ;
    }
    match png_codec::encode(&native, png_codec::Filter::Adaptive) {
        Ok(bytes) => Ok(Encoded { bytes, channels: if alpha { 4 } else { 3 }, alpha_action: "preserved" }),
        Err(e) => Err(Error::Png(e.to_string())),
    }
}

/// Decodes `bytes` in the `profile` format.
pub fn decode(profile: Profile, bytes: &[u8], options: &Options) -> (r: Result<Image, Error>)
    ensures
        r matches Ok(img) ==> pixels_ok(img) && img.width * img.height <= options.max_pixels,
        r matches Ok(img) ==> profile == Profile::Qoi ==> qoi::qoi_header(bytes@),
        profile == Profile::Bmp ==> (r is Ok <==> bmp::bmp_accepts(bytes@, options.max_pixels as int, options.strict_trailing_data)),
        profile == Profile::Tga ==> (r is Ok <==> tga::tga_accepts(bytes@, options.max_pixels as int, options.strict_trailing_data)),
        profile == Profile::Qoi ==> (r is Ok <==> qoi::qoi_decodes(bytes@, options.max_pixels as int, options.strict_trailing_data)),
        profile == Profile::Ppm ==> (r is Ok <==> netpbm::ppm_accepts(
            bytes@,
            options.max_pixels as int,
            options.strict_trailing_data,
            options.allow_sample_scaling,
        )),
{
    match profile {
        Profile::Bmp => bmp::decode_bmp(bytes, options),
        Profile::Tga => tga::decode_tga(bytes, options),
        Profile::Qoi => qoi::decode_qoi(bytes, options),
        Profile::Ppm => netpbm::decode_ppm(bytes, options),
        Profile::Pam => netpbm::decode_pam(bytes, options),
        Profile::Png => {
            let r = decode_png(bytes, options);
            match r {
                Ok(img) => {
                    assert(pixels_ok(img) && img.width * img.height <= options.max_pixels);
                    Ok(img)
                },
                Err(e) => Err(e),
            }
        },
    }
}

/// The file `profile` writes for `img`, where it is stated exactly.
pub open spec fn target_file(profile: Profile, img: Image, o: Options) -> Option<Seq<u8>> {
    match profile {
        Profile::Bmp => Some(bmp::bmp_file(img)),
        Profile::Tga => Some(tga::tga_file(img, o.tga_rle)),
        Profile::Qoi => Some(qoi::qoi_file(img)),
        Profile::Ppm => Some(netpbm::ppm_file(img, o.ppm_alpha)),
        Profile::Pam => Some(netpbm::pam_file(img)),
        Profile::Png => None,
    }
}

/// Encodes `image` in the `profile` format.
pub fn encode(profile: Profile, image: &Image, options: &Options) -> (r: Result<Encoded, Error>)
    requires
        pixels_ok(*image),
    ensures
        r matches Ok(e) ==> (target_file(profile, *image, *options) matches Some(f) ==> e.bytes@ == f),
        profile == Profile::Qoi || profile == Profile::Pam ==> r is Ok,
        profile == Profile::Png ==> (r matches Ok(e) ==> exists|n: png_codec::Image|
            #[trigger] png_codec::encoded(n, png_codec::Filter::Adaptive) == e.bytes@ && n.width == image.width
                && n.height == image.height && n.source_bit_depth == 8 && n.pixels@.len() == image.pixels@.len()
                && (forall|i: int| 0 <= i < n.pixels@.len() ==> #[trigger] n.pixels@[i] == widen(image.pixels@[i]))),
        profile == Profile::Png && image.width >= 1 && image.height >= 1 && image.width * 4 <= usize::MAX ==> r is Ok,
{
    match profile {
        Profile::Bmp => bmp::encode_bmp(image),
        Profile::Tga => tga::encode_tga(image, options.tga_rle),
        Profile::Qoi => qoi::encode_qoi(image),
        Profile::Ppm => netpbm::encode_ppm(image, options.ppm_alpha),
        Profile::Pam => netpbm::encode_pam(image),
        Profile::Png => encode_png(image),
    }
}

/// Convert one supported raster image into another: `input` in the `SOURCE`
/// format becomes the `TARGET` file appended to `output`. The complete source
/// is validated before anything is written.
pub fn convert(input: &[u8], output: &mut Vec<u8>, options: &Options) -> (result: Result<
    Report,
    Error,
>)
    ensures
        (options.max_pixels == 0 || options.max_input_bytes == 0) ==> result matches Err(
            Error::InvalidOptions(_),
        ),
        options.max_pixels != 0 && options.max_input_bytes != 0 && input@.len()
            > options.max_input_bytes ==> result matches Err(Error::InputTooLarge { .. }),
        result is Err ==> final(output)@ == old(output)@,
        result matches Ok(report) ==> exists|img: Image|
            #[trigger] pixels_ok(img) && report.width == img.width && report.height == img.height
                && report.pixels == img.pixels@.len() && report.non_opaque_pixels
                == netpbm::count_non_opaque(img.pixels@) && img.width * img.height
                <= options.max_pixels && (target_file(TARGET, img, *options) matches Some(f)
                ==> final(output)@ == old(output)@ + f),
{
    if options.max_pixels == 0 {
        return Err(Error::InvalidOptions("max_pixels must be non-zero"));
    }
    if options.max_input_bytes == 0 {
        return Err(Error::InvalidOptions("max_input_bytes must be non-zero"));
    }
    if input.len() as u64 > options.max_input_bytes {
        return Err(Error::InputTooLarge { bytes: options.max_input_bytes + 1, limit: options.max_input_bytes });
    }
    let image = match decode(SOURCE, input, options) {
        Ok(i) => i,
        Err(e) => return Err(e),
    };
    let non_opaque_pixels = netpbm::non_opaque(&image.pixels);
    let encoded = match encode(TARGET, &image, options) {
        Ok(e) => e,
        Err(e) => return Err(e),
    };
    let n = image.pixels.len() as u64;
    let pixel_memory = if n <= u64::MAX / 4 {
        n * 4
    } else {
        return Err(Error::IntegerOverflow("working memory"));
    };
    let out_len = encoded.bytes.len() as u64;
    let peak = (input.len() as u64).saturating_add(pixel_memory).saturating_add(out_len);
    let mut bytes = encoded.bytes;
    let ghost appended = bytes@;
    output.append(&mut bytes);
    proof {
        assert(pixels_ok(image));
    }
    Ok(
        Report {
            input_bytes: input.len() as u64,
            output_bytes: out_len,
            width: image.width,
            height: image.height,
            pixels: n,
            source_profile: SOURCE.name(),
            target_profile: TARGET.name(),
            source_channels: image.source_channels,
            target_channels: encoded.channels,
            non_opaque_pixels,
            alpha_action: encoded.alpha_action,
            peak_working_memory_bytes: peak,
            strategy: "rgba8-code-value-exact",
            backend: "native-portable",
            warnings: image.warnings,
        },
    )
}

/// The deterministic test pattern pixel at (`x`, `y`).
pub open spec fn fixture_pixel(alpha: bool, x: int, y: int) -> Pixel {
    Pixel {
        r: ((x * 37 + y * 11) % 256) as u8,
        g: ((x * 3 + y * 29) % 256) as u8,
        b: ((x * 17 + y * 5) % 256) as u8,
        a: if alpha && (x + y) % 3 == 0 { 96u8 } else { 255u8 },
    }
}

/// A `width` by `height` test pattern, translucent on every third diagonal
/// when `alpha`.
pub fn fixture_image(alpha: bool, width: u32, height: u32) -> (img: Image)
    ensures
        img.width == width && img.height == height,
        img.pixels@.len() == width * height,
        forall|y: int, x: int|
            0 <= y < height && 0 <= x < width ==> #[trigger] img.pixels@[y * width + x]
                == fixture_pixel(alpha, x, y),
{
    let mut pixels: Vec<Pixel> = Vec::new();
    let mut y: u32 = 0;
    while y < height
        invariant
            y <= height,
            pixels@.len() == y * width,
            forall|yy: int, x: int|
                0 <= yy < y && 0 <= x < width ==> #[trigger] pixels@[yy * width + x]
                    == fixture_pixel(alpha, x, yy),
        decreases height - y,
    {
        let mut x: u32 = 0;
        let ghost before = pixels@;
        while x < width
            invariant
                x <= width,
                y < height,
                pixels@.len() == y * width + x,
                before.len() == y * width,
                pixels@.subrange(0, before.len() as int) == before,
                forall|k: int| 0 <= k < x ==> #[trigger] pixels@[y * width + k] == fixture_pixel(alpha, k, y as int),
            decreases width - x,
        {
            let ghost prior = pixels@;
            let (xw, yw) = (x as u64, y as u64);
            pixels.push(
                Pixel {
                    r: ((xw * 37 + yw * 11) % 256) as u8,
                    g: ((xw * 3 + yw * 29) % 256) as u8,
                    b: ((xw * 17 + yw * 5) % 256) as u8,
                    a: if alpha && (xw + yw) % 3 == 0 { 96u8 } else { 255u8 },
                },
            );
            assert(pixels@.subrange(0, before.len() as int) =~= prior.subrange(0, before.len() as int));
            x = x + 1;
        }
        proof {
            assert forall|yy: int, xx: int| 0 <= yy < y + 1 && 0 <= xx < width implies #[trigger] pixels@[yy * width + xx] == fixture_pixel(alpha, xx, yy) by {
                if yy < y {
                    assert(yy * width + xx < y * width) by (nonlinear_arith)
                        requires
                            yy < y,
                            xx < width,
                    ;
                    assert(pixels@[yy * width + xx] == before[yy * width + xx]);
                }
            }
        }
        assert((y + 1) * width == y * width + width) by (nonlinear_arith);
        y = y + 1;
    }
    assert(pixels@.len() == width * height) by {
        assert(y == height);
        assert(height as int * width as int == width as int * height as int) by (nonlinear_arith);
    }
    Image { width, height, source_channels: if alpha { 4 } else { 3 }, pixels, warnings: Vec::new() }
}

/// Deterministic valid source fixture used by standalone, adapter and copy-out tests.
pub fn conformance_fixture() -> (v: Vec<u8>)
    ensures
        exists|n: png_codec::Image|
            {
                &&& #[trigger] png_codec::encoded(n, png_codec::Filter::Adaptive) == v@
                &&& n.width == 8 && n.height == 4 && n.source_bit_depth == 8 && n.pixels@.len() == 32
                &&& forall|i: int| 0 <= i < 32 ==> #[trigger] n.pixels@[i] == widen(fixture_pixel(false, i % 8, i / 8))
            },
{
    let img = fixture_image(false, 8, 4);
    assert forall|i: int| 0 <= i < 32 implies #[trigger] img.pixels@[i] == fixture_pixel(false, i % 8, i / 8) by {
        let y = i / 8;
        let x = i % 8;
        assert(i == y * 8 + x);
        assert(img.pixels@[y * 8 + x] == fixture_pixel(false, x, y));
    }
    match encode(SOURCE, &img, &Options::default()) {
        Ok(e) => e.bytes,
        Err(_) => Vec::new(),
    }
}

} // verus!
