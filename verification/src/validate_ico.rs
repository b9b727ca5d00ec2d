//! Strict structural validation of ICO, CUR or GIF files, copied through
//! byte for byte once every member or frame decodes.
use vstd::prelude::*;
use crate::legacy_native::{self, gif, icon};
use crate::png_codec;

verus! {

#[derive(Debug, Clone, Copy, PartialEq, Eq, Structural)]
pub enum Format {
    Gif,
    Ico,
    Cur,
}

/// The format this capsule validates.
pub const FORMAT: Format = Format::Ico;

#[derive(Debug, Clone, PartialEq, Eq)]
pub struct Options {
    pub max_input_bytes: u64,
    pub max_pixels: u64,
    pub max_frames: u32,
    pub max_members: u32,
}

impl Default for Options {
    fn default() -> (o: Self)
        ensures
            o.max_input_bytes == 512 * 1024 * 1024,
            o.max_pixels == 100_000_000,
            o.max_frames == 10_000,
            o.max_members == 1024,
    {
        Options { max_input_bytes: 536_870_912, max_pixels: 100_000_000, max_frames: 10_000, max_members: 1024 }
    }
}

#[derive(Debug, Clone, PartialEq, Eq)]
pub struct Report {
    pub input_bytes: u64,
    pub output_bytes: u64,
    pub width: u32,
    pub height: u32,
    pub frames_or_members: u32,
    pub png_members: u32,
    pub dib_members: u32,
    pub peak_working_memory_bytes: u64,
    pub strategy: &'static str,
    pub backend: &'static str,
    pub warnings: Vec<String>,
}

#[derive(Debug)]
pub enum Error {
    InvalidOptions(&'static str),
    InputTooLarge { bytes: u64, limit: u64 },
    InvalidInput(String),
    IntegerOverflow(&'static str),
}

pub open spec fn kind_of(f: Format) -> icon::IconKind {
    if f == Format::Ico { icon::IconKind::Icon } else { icon::IconKind::Cursor }
}

pub open spec fn limits_ok(o: Options) -> bool {
    o.max_input_bytes != 0 && o.max_pixels != 0 && o.max_frames != 0 && o.max_members != 0
}

/// A bitmap member of `b` decodes within `max_pixels` and has the width and
/// height its directory entry gives.
pub open spec fn dib_member_ok(b: Seq<u8>, m: icon::IconMember, max_pixels: u64) -> bool {
    let p = b.subrange(m.offset as int, m.offset + m.size);
    let sh = icon::le_i32(p, 8);
    &&& icon::dib_accepts(p, max_pixels as int)
    &&& icon::le_i32(p, 4) == m.width
    &&& (if sh < 0 { -sh } else { sh }) / 2 == m.height
}

/// Decodes one member and checks it against its directory entry; `Ok`
/// carries the decoded image's memory estimate.
fn validate_member(member: &icon::IconMember, input: &[u8], options: &Options) -> (r: Result<u64, Error>)
    requires
        member.offset + member.size <= input@.len(),
    ensures
        r matches Err(e) ==> e is InvalidInput,
        !member.png ==> (r is Ok <==> dib_member_ok(input@, *member, options.max_pixels)),
{
    let mut payload: Vec<u8> = Vec::new();
    crate::bytes::push_range(&mut payload, input, member.offset, member.size);
    if member.png {
        let decoded = match png_codec::decode(
            payload.as_slice(),
            &png_codec::DecodeOptions {
                max_pixels: options.max_pixels,
                max_inflate_bytes: options.max_input_bytes,
                strict_crc: true,
                strict_trailing_data: true,
            },
        ) {
            Ok(d) => d,
            Err(e) => return Err(Error::InvalidInput(e.to_string())),
        };
        if decoded.width != member.width || decoded.height != member.height {
            return Err(Error::InvalidInput(crate::text::note("ICO/CUR directory dimensions disagree with PNG member")));
        }
        let n = decoded.pixels.len() as u64;
        Ok(if n <= u64::MAX / 8 { n * 8 } else { u64::MAX })
    } else {
        let decoded = match icon::decode_dib(payload.as_slice(), options.max_pixels) {
            Ok(d) => d,
            Err(e) => return Err(Error::InvalidInput(e.to_string())),
        };
        if decoded.width != member.width || decoded.height != member.height {
            return Err(Error::InvalidInput(crate::text::note("ICO/CUR directory dimensions disagree with DIB member")));
        }
        let n = decoded.pixels.len() as u64;
        Ok(if n <= u64::MAX / 4 { n * 4 } else { u64::MAX })
    }
}

/// Validates the whole input and copies it unchanged to `output`.
pub fn convert(input: &[u8], output: &mut Vec<u8>, options: &Options) -> (result: Result<
    Report,
    Error,
>)
    ensures
        !limits_ok(*options) <==> result matches Err(Error::InvalidOptions(_)),
        limits_ok(*options) && input@.len() > options.max_input_bytes ==> (result matches Err(
            Error::InputTooLarge { bytes, limit },
        ) && bytes == options.max_input_bytes + 1 && limit == options.max_input_bytes),
        result is Err ==> final(output)@ == old(output)@,
        result is Ok ==> final(output)@ == old(output)@ + input@,
        limits_ok(*options) && input@.len() <= options.max_input_bytes && !icon::directory_valid(
            input@,
            kind_of(FORMAT),
            options.max_members,
        ) ==> result matches Err(Error::InvalidInput(_)),
        result is Ok ==> forall|ms: Seq<icon::IconMember>|
            #[trigger] icon::directory_ok(input@, kind_of(FORMAT), options.max_members, ms) ==> forall|i: int|
                0 <= i < ms.len() && !ms[i].png ==> dib_member_ok(input@, #[trigger] ms[i], options.max_pixels),
        limits_ok(*options) && input@.len() <= options.max_input_bytes && (exists|ms: Seq<icon::IconMember>|
            #[trigger] icon::directory_ok(input@, kind_of(FORMAT), options.max_members, ms) && forall|i: int|
                0 <= i < ms.len() ==> !(#[trigger] ms[i]).png && dib_member_ok(input@, ms[i], options.max_pixels))
            ==> result is Ok,
        result matches Ok(report) ==> {
            &&& report.input_bytes == input@.len()
            &&& report.output_bytes == input@.len()
            &&& FORMAT != Format::Gif ==> exists|ms: Seq<icon::IconMember>|
                #[trigger] icon::directory_ok(input@, kind_of(FORMAT), options.max_members, ms) && report.frames_or_members == ms.len() && report.png_members
                    + report.dib_members == ms.len()
        },
{
    if options.max_input_bytes == 0 || options.max_pixels == 0 || options.max_frames == 0
        || options.max_members == 0 {
        return Err(Error::InvalidOptions("resource limits must be non-zero"));
    }
    if input.len() as u64 > options.max_input_bytes {
        return Err(Error::InputTooLarge { bytes: options.max_input_bytes + 1, limit: options.max_input_bytes });
    }
    let width: u32;
    let height: u32;
    let count: u32;
    let png_members: u32;
    let dib_members: u32;
    let decoded_memory: u64;
    if FORMAT == Format::Gif {
        if options.max_input_bytes > usize::MAX as u64 {
            return Err(Error::IntegerOverflow("GIF sub-block limit"));
        }
        let file = match gif::decode_gif(input, options.max_pixels, options.max_frames, options.max_input_bytes as usize) {
            Ok(f) => f,
            Err(e) => return Err(Error::InvalidInput(e.to_string())),
        };
        assert(file.width as int * file.height as int <= 0xFFFF * 0xFFFF) by (nonlinear_arith)
            requires
                file.width <= 0xFFFF,
                file.height <= 0xFFFF,
        ;
        let pixels = file.width as u64 * file.height as u64 * 4;
        let frames = file.frames.len() as u64;
        if frames != 0 && pixels > u64::MAX / frames {
            return Err(Error::IntegerOverflow("GIF decoded-frame memory"));
        }
        assert(pixels as int * frames as int <= u64::MAX) by (nonlinear_arith)
            requires
                frames == 0 || pixels as int <= u64::MAX as int / frames as int,
        ;
        width = file.width;
        height = file.height;
        count = file.frames.len() as u32;
        png_members = 0;
        dib_members = 0;
        decoded_memory = pixels * frames;
    } else {
        let kind = if FORMAT == Format::Ico { icon::IconKind::Icon } else { icon::IconKind::Cursor };
        let members = match icon::parse_icon(input, kind, options.max_members) {
            Ok(m) => m,
            Err(e) => {
                proof {
                    if exists|ms: Seq<icon::IconMember>| #[trigger] icon::directory_ok(input@, kind, options.max_members, ms) {
                        let ms = choose|ms: Seq<icon::IconMember>| #[trigger] icon::directory_ok(input@, kind, options.max_members, ms);
                        icon::lemma_directory_ok_valid(input@, kind, options.max_members, ms);
                    }
                }
                return Err(Error::InvalidInput(e.to_string()));
            },
        };
        let ghost all_dib = forall|k: int|
            0 <= k < members@.len() ==> !(#[trigger] members@[k]).png && dib_member_ok(input@, members@[k], options.max_pixels);
        proof {
            assert forall|ms: Seq<icon::IconMember>, k: int| #![trigger ms[k]]
                icon::directory_ok(input@, kind, options.max_members, ms) && 0 <= k < ms.len() implies
                ms[k].offset == members@[k].offset && ms[k].size == members@[k].size && ms[k].width == members@[k].width
                && ms[k].height == members@[k].height && ms[k].png == members@[k].png by {
                assert(ms.len() == members@.len());
            }
            if exists|ms: Seq<icon::IconMember>|
                #[trigger] icon::directory_ok(input@, kind_of(FORMAT), options.max_members, ms) && forall|i: int|
                    0 <= i < ms.len() ==> !(#[trigger] ms[i]).png && dib_member_ok(input@, ms[i], options.max_pixels) {
                let ms = choose|ms: Seq<icon::IconMember>|
                    #[trigger] icon::directory_ok(input@, kind_of(FORMAT), options.max_members, ms) && forall|i: int|
                        0 <= i < ms.len() ==> !(#[trigger] ms[i]).png && dib_member_ok(input@, ms[i], options.max_pixels);
                assert forall|k: int| 0 <= k < members@.len() implies !(#[trigger] members@[k]).png && dib_member_ok(
                    input@,
                    members@[k],
                    options.max_pixels,
                ) by {
                    assert(!ms[k].png && dib_member_ok(input@, ms[k], options.max_pixels));
                }
            }
        }
        let mut peak: u64 = 0;
        let mut png: u32 = 0;
        let mut i: usize = 0;
        while i < members.len()
            invariant
                i <= members@.len(),
                png <= i,
                members@.len() <= 65535,
                icon::directory_ok(input@, kind, options.max_members, members@),
                limits_ok(*options),
                input@.len() <= options.max_input_bytes,
                kind == kind_of(FORMAT),
                all_dib == forall|k: int|
                    0 <= k < members@.len() ==> !(#[trigger] members@[k]).png && dib_member_ok(input@, members@[k], options.max_pixels),
                (exists|ms: Seq<icon::IconMember>|
                    #[trigger] icon::directory_ok(input@, kind_of(FORMAT), options.max_members, ms) && forall|j: int|
                        0 <= j < ms.len() ==> !(#[trigger] ms[j]).png && dib_member_ok(input@, ms[j], options.max_pixels))
                    ==> all_dib,
                forall|k: int| 0 <= k < i && !(#[trigger] members@[k]).png ==> dib_member_ok(input@, members@[k], options.max_pixels),
            decreases members@.len() - i,
        {
            let member = members[i];
            if member.png {
                png = png + 1;
            }
            assert(member.offset + member.size <= input@.len());
            let m = match validate_member(&member, input, options) {
                Ok(v) => v,
                Err(e) => return Err(e),
            };
            if m > peak {
                peak = m;
            }
            i = i + 1;
        }
        let best = match icon::select_best(&members) {
            Ok(b) => b,
            Err(e) => return Err(Error::InvalidInput(e.to_string())),
        };
        width = members[best].width;
        height = members[best].height;
        count = members.len() as u32;
        png_members = png;
        dib_members = members.len() as u32 - png;
        decoded_memory = peak;
    }
    crate::bytes::push_range(output, input, 0, input.len());
    assert(input@.subrange(0, input@.len() as int) =~= input@);
    Ok(
        Report {
            input_bytes: input.len() as u64,
            output_bytes: input.len() as u64,
            width,
            height,
            frames_or_members: count,
            png_members,
            dib_members,
            peak_working_memory_bytes: (input.len() as u64).saturating_add(decoded_memory),
            strategy: "strict-full-structure-validation",
            backend: "native-portable",
            warnings: Vec::new(),
        },
    )
}

/// A small valid file of the capsule's format.
/// The pixels of the conformance image: black, red, green, blue, yellow,
/// white, opaque, at sixteen bits per channel.
pub open spec fn fixture_pixels16() -> Seq<png_codec::Pixel16> {
    seq![
        png_codec::Pixel16 { r: 0, g: 0, b: 0, a: 65535 },
        png_codec::Pixel16 { r: 65535, g: 0, b: 0, a: 65535 },
        png_codec::Pixel16 { r: 0, g: 65535, b: 0, a: 65535 },
        png_codec::Pixel16 { r: 0, g: 0, b: 65535, a: 65535 },
        png_codec::Pixel16 { r: 65535, g: 65535, b: 0, a: 65535 },
        png_codec::Pixel16 { r: 65535, g: 65535, b: 65535, a: 65535 },
    ]
}

/// A three by two icon holding one PNG member of the conformance image.
pub fn conformance_fixture() -> (v: Vec<u8>)
    ensures
        exists|n: png_codec::Image|
            {
                &&& n.width == 3 && n.height == 2 && n.source_channels == 4 && n.source_bit_depth == 8
                    && n.source_color_type == 6 && !n.interlaced
                &&& n.pixels@ == fixture_pixels16()
                &&& v@ == (if png_codec::encoded(n, png_codec::Filter::Adaptive).len() <= u32::MAX {
                    icon::icon_file(png_codec::encoded(n, png_codec::Filter::Adaptive), 3, 2, icon::IconKind::Icon, 0, 0)
                } else {
                    Seq::<u8>::empty()
                })
            },
{
    let mut pixels: Vec<legacy_native::Pixel> = Vec::new();
    pixels.push(legacy_native::Pixel { r: 0, g: 0, b: 0, a: 255 });
    pixels.push(legacy_native::Pixel { r: 255, g: 0, b: 0, a: 255 });
    pixels.push(legacy_native::Pixel { r: 0, g: 255, b: 0, a: 255 });
    pixels.push(legacy_native::Pixel { r: 0, g: 0, b: 255, a: 255 });
    pixels.push(legacy_native::Pixel { r: 255, g: 255, b: 0, a: 255 });
    pixels.push(legacy_native::Pixel { r: 255, g: 255, b: 255, a: 255 });
    if FORMAT == Format::Gif {
        let image = legacy_native::Image { width: 3, height: 2, pixels };
        match gif::encode_gif(&image) {
            Ok(v) => v,
            Err(_) => Vec::new(),
        }
    } else {
        let mut wide: Vec<png_codec::Pixel16> = Vec::new();
        let mut i: usize = 0;
        let ghost px = pixels@;
        while i < pixels.len()
            invariant
                i <= pixels@.len(),
                pixels@ == px,
                wide@.len() == i,
                forall|j: int|
                    0 <= j < i ==> #[trigger] wide@[j] == (png_codec::Pixel16 {
                        r: (px[j].r * 257) as u16,
                        g: (px[j].g * 257) as u16,
                        b: (px[j].b * 257) as u16,
                        a: (px[j].a * 257) as u16,
                    }),
            decreases pixels@.len() - i,
        {
            let p = pixels[i];
            wide.push(png_codec::Pixel16 { r: p.r as u16 * 257, g: p.g as u16 * 257, b: p.b as u16 * 257, a: p.a as u16 * 257 });
            i = i + 1;
        }
        assert(wide@ =~= fixture_pixels16()) by {
            assert(wide@.len() == 6);
            assert forall|j: int| 0 <= j < 6 implies wide@[j] == fixture_pixels16()[j] by {
                assert(wide@[j] == (png_codec::Pixel16 {
                    r: (px[j].r * 257) as u16,
                    g: (px[j].g * 257) as u16,
                    b: (px[j].b * 257) as u16,
                    a: (px[j].a * 257) as u16,
                }));
            }
        }
        let png_image = png_codec::Image {
            width: 3,
            height: 2,
            source_channels: 4,
            source_bit_depth: 8,
            source_color_type: 6,
            interlaced: false,
            pixels: wide,
            warnings: Vec::new(),
        };
        let png = match png_codec::encode(&png_image, png_codec::Filter::Adaptive) {
            Ok(v) => v,
            Err(_) => Vec::new(),
        };
        assert(png_codec::encodable(png_image));
        assert(png@ == png_codec::encoded(png_image, png_codec::Filter::Adaptive));
        match icon::encode_icon(
            png.as_slice(),
            3,
            2,
            if FORMAT == Format::Ico { icon::IconKind::Icon } else { icon::IconKind::Cursor },
            0,
            0,
        ) {
            Ok(v) => v,
            Err(_) => Vec::new(),
        }
    }
}

} // verus!
