//! Windows BMP converted to PNG.
//!
//! Rows are decoded top-down, filtered, compressed (stored blocks, or fixed
//! Huffman with distance-one runs) and split into `IDAT` chunks of the
//! configured size.
use vstd::prelude::*;
use crate::bytes::{be32_bytes, le16, le32, push_be32};
use crate::png_codec::{chunk, chunk_bytes, kind_for, signature, zlib_store, zlib_stored, SIGNATURE};
use crate::png_filter::filtered;
use bmp::{decoded_row, header_of, BmpImage};

pub mod bmp;
pub mod deflate;

verus! {

#[derive(Debug, Clone, Copy, PartialEq, Eq, Structural)]
pub enum FilterStrategy {
    NoFilter,
    Sub,
    Up,
    Average,
    Paeth,
    Adaptive,
}

#[derive(Debug, Clone, Copy, PartialEq, Eq, Structural)]
pub enum CompressionStrategy {
    /// Fixed Huffman Deflate with a streaming distance-one run detector.
    FixedRle,
    /// Stored Deflate blocks. This minimizes CPU work at the cost of output size.
    Store,
}

#[derive(Debug, Clone, Copy, PartialEq, Eq, Structural)]
pub enum UnmarkedAlpha {
    /// Treat reserved palette bytes and BI_RGB's fourth byte as opaque.
    Opaque,
    /// Preserve those bytes as alpha even when no alpha mask declares them.
    Preserve,
}

#[derive(Debug, Clone, PartialEq, Eq)]
pub struct Options {
    pub filter: FilterStrategy,
    pub compression: CompressionStrategy,
    pub unmarked_alpha: UnmarkedAlpha,
    pub idat_chunk_size: usize,
    pub max_pixels: u64,
    pub strict_declared_file_size: bool,
}

impl Default for Options {
    fn default() -> (o: Self)
        ensures
            o.filter == FilterStrategy::Adaptive,
            o.compression == CompressionStrategy::FixedRle,
            o.unmarked_alpha == UnmarkedAlpha::Opaque,
            o.idat_chunk_size == 65536,
            o.max_pixels == 100_000_000,
            o.strict_declared_file_size,
    {
        Options {
            filter: FilterStrategy::Adaptive,
            compression: CompressionStrategy::FixedRle,
            unmarked_alpha: UnmarkedAlpha::Opaque,
            idat_chunk_size: 65536,
            max_pixels: 100_000_000,
            strict_declared_file_size: true,
        }
    }
}

#[derive(Debug, Clone, PartialEq, Eq)]
pub struct Report {
    pub input_bytes: u64,
    pub output_bytes: u64,
    pub width: u32,
    pub height: u32,
    pub source_bits_per_pixel: u16,
    pub source_compression: &'static str,
    pub source_top_down: bool,
    pub palette_entries: u32,
    pub output_color_type: &'static str,
    pub alpha_preserved: bool,
    pub decoded_pixels: u64,
    pub peak_working_memory_bytes: u64,
    pub filter: &'static str,
    pub compression: &'static str,
    pub strategy: &'static str,
    pub backend: &'static str,
    pub warnings: Vec<String>,
}

#[derive(Debug)]
pub enum Error {
    InvalidOptions(&'static str),
    InvalidSignature,
    UnsupportedDibHeader(u32),
    InvalidDimensions { width: i32, height: i32 },
    PixelLimitExceeded { pixels: u64, limit: u64 },
    UnsupportedPlanes(u16),
    UnsupportedBitDepth(u16),
    UnsupportedCompression { compression: u32, bits_per_pixel: u16 },
    InvalidPixelOffset(u32),
    DeclaredFileSizeExceedsInput { declared: u32, actual: u64 },
    Truncated(&'static str),
    InvalidPalette(&'static str),
    PaletteIndexOutOfRange { index: u8, entries: usize },
    InvalidBitfieldMasks(&'static str),
    InvalidRle(&'static str),
    IntegerOverflow(&'static str),
}

/// The option spelling of a filter strategy.
pub open spec fn filter_label(value: FilterStrategy) -> &'static str {
    match value {
        FilterStrategy::NoFilter => "none",
        FilterStrategy::Sub => "sub",
        FilterStrategy::Up => "up",
        FilterStrategy::Average => "average",
        FilterStrategy::Paeth => "paeth",
        FilterStrategy::Adaptive => "adaptive",
    }
}

/// The option spelling of a compression strategy.
pub open spec fn compression_label(value: CompressionStrategy) -> &'static str {
    match value {
        CompressionStrategy::FixedRle => "fixed-rle",
        CompressionStrategy::Store => "store",
    }
}

pub fn filter_name(value: FilterStrategy) -> (r: &'static str)
    ensures
        r == filter_label(value),
{
    match value {
        FilterStrategy::NoFilter => "none",
        FilterStrategy::Sub => "sub",
        FilterStrategy::Up => "up",
        FilterStrategy::Average => "average",
        FilterStrategy::Paeth => "paeth",
        FilterStrategy::Adaptive => "adaptive",
    }
}

pub fn compression_name(value: CompressionStrategy) -> (r: &'static str)
    ensures
        r == compression_label(value),
{
    match value {
        CompressionStrategy::FixedRle => "fixed-rle",
        CompressionStrategy::Store => "store",
    }
}

pub open spec fn png_filter_of(f: FilterStrategy) -> crate::png_codec::Filter {
    match f {
        FilterStrategy::NoFilter => crate::png_codec::Filter::NoFilter,
        FilterStrategy::Sub => crate::png_codec::Filter::Sub,
        FilterStrategy::Up => crate::png_codec::Filter::Up,
        FilterStrategy::Average => crate::png_codec::Filter::Average,
        FilterStrategy::Paeth => crate::png_codec::Filter::Paeth,
        FilterStrategy::Adaptive => crate::png_codec::Filter::Adaptive,
    }
}

fn png_filter(f: FilterStrategy) -> (r: crate::png_codec::Filter)
    ensures
        r == png_filter_of(f),
{
    match f {
        FilterStrategy::NoFilter => crate::png_codec::Filter::NoFilter,
        FilterStrategy::Sub => crate::png_codec::Filter::Sub,
        FilterStrategy::Up => crate::png_codec::Filter::Up,
        FilterStrategy::Average => crate::png_codec::Filter::Average,
        FilterStrategy::Paeth => crate::png_codec::Filter::Paeth,
        FilterStrategy::Adaptive => crate::png_codec::Filter::Adaptive,
    }
}

/// Output row `y`, or zeros above the first row.
pub open spec fn prior_row(img: BmpImage, b: Seq<u8>, y: int) -> Seq<u8> {
    if y == 0 {
        Seq::new((img.width * img.output_channels) as nat, |_i: int| 0u8)
    } else {
        decoded_row(img, b, y - 1)->0
    }
}

/// The filtered scanlines `0..n` of the decoded image.
pub open spec fn filtered_rows(img: BmpImage, b: Seq<u8>, f: FilterStrategy, n: nat) -> Seq<u8>
    decreases n,
{
    if n == 0 {
        Seq::empty()
    } else {
        let y = n - 1;
        let row = decoded_row(img, b, y)->0;
        let prior = prior_row(img, b, y);
        let bpp = img.output_channels as int;
        let k = kind_for(png_filter_of(f), row, prior, bpp);
        filtered_rows(img, b, f, (n - 1) as nat) + seq![k] + filtered(k, row, prior, bpp)
    }
}

/// `z` split into `IDAT` chunks of at most `n` bytes.
pub open spec fn split_chunks(z: Seq<u8>, n: int) -> Seq<u8>
    decreases z.len(),
{
    if z.len() <= n || n <= 0 {
        chunk_bytes(seq![0x49u8, 0x44, 0x41, 0x54], z)
    } else {
        chunk_bytes(seq![0x49u8, 0x44, 0x41, 0x54], z.subrange(0, n)) + split_chunks(
            z.subrange(n, z.len() as int),
            n,
        )
    }
}

/// The PNG file for `img` whose zlib stream is `z`.
pub open spec fn png_file(img: BmpImage, z: Seq<u8>, n: int) -> Seq<u8> {
    signature() + chunk_bytes(
        seq![0x49u8, 0x48, 0x44, 0x52],
        be32_bytes(img.width as int) + be32_bytes(img.height as int) + seq![
            8u8,
            if img.output_channels == 4 { 6u8 } else { 2u8 },
            0u8,
            0u8,
            0u8,
        ],
    ) + split_chunks(z, n) + chunk_bytes(seq![0x49u8, 0x45, 0x4e, 0x44], Seq::empty())
}

/// The zlib stream that encodes `data`: stored blocks for `Store`; for
/// `FixedRle` the zlib header, the one fixed-Huffman block `rle_block` of
/// `data` packed least significant bit first and padded to a whole byte,
/// and `data`'s Adler-32.
pub open spec fn deflated(c: CompressionStrategy, data: Seq<u8>, z: Seq<u8>) -> bool {
    match c {
        CompressionStrategy::Store => z == zlib_stored(data),
        CompressionStrategy::FixedRle => {
            &&& z.len() == 6 + (deflate::rle_block(data).1 + 7) / 8
            &&& z[0] == 0x78 && z[1] == 0x01
            &&& crate::bytes::le_value(z.subrange(0, z.len() - 4)) == 0x178 + deflate::rle_block(
                data,
            ).0 * vstd::arithmetic::power2::pow2(16)
            &&& z.subrange(z.len() - 4, z.len() as int) == be32_bytes(
                crate::checksum::adler32_spec(data),
            )
        },
    }
}

/// Every row decodes (its palette indices are in range).
pub open spec fn rows_decode(img: BmpImage, b: Seq<u8>) -> bool {
    forall|y: int| 0 <= y < img.height ==> #[trigger] decoded_row(img, b, y) is Some
}

fn push_chunks(out: &mut Vec<u8>, z: &Vec<u8>, n: usize)
    requires
        1 <= n <= 16 * 1024 * 1024,
    ensures
        final(out)@ == old(out)@ + split_chunks(z@, n as int),
{
    let len = z.len();
    let mut pos: usize = 0;
    assert(z@.subrange(0, len as int) =~= z@);
    loop
        invariant_except_break
            pos <= len,
            len == z@.len(),
            1 <= n <= 16 * 1024 * 1024,
            out@ + split_chunks(z@.subrange(pos as int, len as int), n as int) == old(out)@
                + split_chunks(z@, n as int),
        ensures
            out@ == old(out)@ + split_chunks(z@, n as int),
        decreases len - pos,
    {
        let ghost rest = z@.subrange(pos as int, len as int);
        let take = if len - pos <= n {
            len - pos
        } else {
            n
        };
        let mut part: Vec<u8> = Vec::new();
        crate::bytes::push_range(&mut part, z.as_slice(), pos, take);
        let _ = chunk(out, [0x49u8, 0x44, 0x41, 0x54], part.as_slice());
        assert([0x49u8, 0x44, 0x41, 0x54]@ =~= seq![0x49u8, 0x44, 0x41, 0x54]);
        if pos + take == len {
            assert(part@ =~= rest);
            break;
        }
        assert(rest.subrange(0, n as int) =~= part@);
        assert(rest.subrange(n as int, rest.len() as int) =~= z@.subrange(pos + take, len as int));
        pos = pos + take;
    }
}

proof fn lemma_row_len(img: BmpImage, b: Seq<u8>, y: int)
    requires
        img.wf(b.len() as int),
        0 <= y < img.height,
        decoded_row(img, b, y) is Some,
    ensures
        decoded_row(img, b, y)->0.len() == img.width * img.output_channels,
{
    if img.rle_pixels is Some {
        let v = img.rle_pixels->0;
        bmp::lemma_palette_len(
            v@.subrange(y * img.width, y * img.width + img.width),
            img.palette@,
            img.output_channels as int,
            img.preserve_unmarked_alpha,
            img.width as nat,
        );
    } else if img.bits_per_pixel <= 8 {
        let start = bmp::row_start(img, y);
        bmp::lemma_palette_len(
            Seq::new(img.width as nat, |x: int| bmp::packed_index(b, start, x, img.bits_per_pixel)),
            img.palette@,
            img.output_channels as int,
            img.preserve_unmarked_alpha,
            img.width as nat,
        );
    } else {
        bmp::lemma_direct_len(img, b, bmp::row_start(img, y), img.width as nat);
    }
}

/// Decodes and filters every row of `img`.
fn filter_rows(input: &[u8], img: &BmpImage, filter: FilterStrategy) -> (r: Result<Vec<u8>, Error>)
    requires
        img.wf(input@.len() as int),
    ensures
        r is Ok ==> rows_decode(*img, input@),
        rows_decode(*img, input@) && img.width * img.output_channels <= usize::MAX ==> r is Ok,
        r matches Ok(v) ==> v@ == filtered_rows(*img, input@, filter, img.height as nat),
        r matches Err(e) ==> e is PaletteIndexOutOfRange || e is IntegerOverflow,
{
    let ch = img.output_channels;
    assert(img.width as int * ch as int <= 0x7FFF_FFFF * 4) by (nonlinear_arith)
        requires
            img.width <= 0x7FFF_FFFF,
            ch <= 4,
    ;
    if img.width as u64 * ch as u64 > usize::MAX as u64 {
        return Err(Error::IntegerOverflow("PNG row length"));
    }
    let row_len = img.width as usize * ch;
    let mut prior: Vec<u8> = Vec::new();
    let mut k: usize = 0;
    while k < row_len
        invariant
            k <= row_len,
            prior@.len() == k,
            forall|i: int| 0 <= i < k ==> prior@[i] == 0u8,
        decreases row_len - k,
    {
        prior.push(0u8);
        k = k + 1;
    }
    assert(prior@ =~= prior_row(*img, input@, 0));
    let f = png_filter(filter);
    let mut filtered_all: Vec<u8> = Vec::new();
    let mut y: u32 = 0;
    while y < img.height
        invariant
            y <= img.height,
            img.wf(input@.len() as int),
            ch == img.output_channels,
            row_len == img.width * ch,
            row_len <= 0x7FFF_FFFF * 4,
            f == png_filter_of(filter),
            prior@ == prior_row(*img, input@, y as int),
            prior@.len() == row_len,
            filtered_all@ == filtered_rows(*img, input@, filter, y as nat),
            forall|j: int| 0 <= j < y ==> #[trigger] decoded_row(*img, input@, j) is Some,
        decreases img.height - y,
    {
        let decoded = match img.decode_row(input, y) {
            Ok(v) => v,
            Err(e) => {
                assert(!rows_decode(*img, input@)) by {
                    assert(decoded_row(*img, input@, y as int) is None);
                }
                return Err(e);
            },
        };
        proof {
            lemma_row_len(*img, input@, y as int);
        }
        crate::png_codec::filter_row(f, &decoded, &prior, ch, &mut filtered_all);
        prior = decoded;
        y = y + 1;
    }
    Ok(filtered_all)
}

/// Assembles the PNG file around the zlib stream `z`.
fn assemble(img: &BmpImage, z: &Vec<u8>, chunk_size: usize) -> (out: Vec<u8>)
    requires
        1 <= chunk_size <= 16 * 1024 * 1024,
    ensures
        out@ == png_file(*img, z@, chunk_size as int),
{
    let mut out: Vec<u8> = Vec::new();
    out.extend_from_slice(&SIGNATURE);
    assert(SIGNATURE@ =~= signature());
    assert(out@ =~= signature());
    let mut ihdr: Vec<u8> = Vec::new();
    push_be32(&mut ihdr, img.width);
    push_be32(&mut ihdr, img.height);
    ihdr.push(8u8);
    ihdr.push(if img.output_channels == 4 { 6u8 } else { 2u8 });
    ihdr.push(0u8);
    ihdr.push(0u8);
    ihdr.push(0u8);
    let ghost ih = be32_bytes(img.width as int) + be32_bytes(img.height as int) + seq![
        8u8,
        if img.output_channels == 4 { 6u8 } else { 2u8 },
        0u8,
        0u8,
        0u8,
    ];
    assert(ihdr@ =~= ih);
    let _ = chunk(&mut out, [0x49u8, 0x48, 0x44, 0x52], ihdr.as_slice());
    assert([0x49u8, 0x48, 0x44, 0x52]@ =~= seq![0x49u8, 0x48, 0x44, 0x52]);
    let ghost a = out@;
    assert(a == signature() + chunk_bytes(seq![0x49u8, 0x48, 0x44, 0x52], ih));
    push_chunks(&mut out, z, chunk_size);
    let ghost c = out@;
    let _ = chunk(&mut out, [0x49u8, 0x45, 0x4e, 0x44], &[]);
    assert([0x49u8, 0x45, 0x4e, 0x44]@ =~= seq![0x49u8, 0x45, 0x4e, 0x44]);
    assert(out@ == c + chunk_bytes(seq![0x49u8, 0x45, 0x4e, 0x44], Seq::empty()));
    out
}

/// Encodes the decoded rows of `img` as PNG.
fn encode(input: &[u8], img: &BmpImage, options: &Options) -> (r: Result<Vec<u8>, Error>)
    requires
        img.wf(input@.len() as int),
        1 <= options.idat_chunk_size <= 16 * 1024 * 1024,
    ensures
        r is Ok ==> rows_decode(*img, input@),
        rows_decode(*img, input@) && img.width * img.output_channels <= usize::MAX ==> r is Ok,
        r matches Err(e) ==> e is PaletteIndexOutOfRange || e is IntegerOverflow,
        r matches Ok(out) ==> exists|z: Seq<u8>|
            #[trigger] deflated(options.compression, filtered_rows(*img, input@, options.filter, img.height as nat), z)
                && out@ == png_file(*img, z, options.idat_chunk_size as int),
{
    let filtered_all = match filter_rows(input, img, options.filter) {
        Ok(v) => v,
        Err(e) => return Err(e),
    };
    let z = if options.compression == CompressionStrategy::Store {
        zlib_store(filtered_all.as_slice())
    } else {
        bmp_deflate_rle(filtered_all.as_slice())
    };
    assert(deflated(options.compression, filtered_all@, z@));
    Ok(assemble(img, &z, options.idat_chunk_size))
}

fn bmp_deflate_rle(data: &[u8]) -> (z: Vec<u8>)
    ensures
        deflated(CompressionStrategy::FixedRle, data@, z@),
{
    deflate::fixed_rle(data)
}

/// Converts one Windows BMP byte stream into one PNG byte stream, appended
/// to `output` on success (and `output` unchanged on failure).
pub fn convert(input: &[u8], output: &mut Vec<u8>, options: &Options) -> (result: Result<
    Report,
    Error,
>)
    ensures
        (options.idat_chunk_size == 0 || options.idat_chunk_size > 16 * 1024 * 1024
            || options.max_pixels == 0) <==> result matches Err(Error::InvalidOptions(_)),
        result is Err ==> final(output)@ == old(output)@,
        input@.len() >= 14 && !(input@[0] == 0x42 && input@[1] == 0x4d) && !(
        options.idat_chunk_size == 0 || options.idat_chunk_size > 16 * 1024 * 1024
            || options.max_pixels == 0) ==> result matches Err(Error::InvalidSignature),
        !(options.idat_chunk_size == 0 || options.idat_chunk_size > 16 * 1024 * 1024
            || options.max_pixels == 0) ==> match bmp::header_refusal(input@, *options) {
            Some(e) => result == Err::<Report, Error>(e),
            None => {
                let c = bmp::compression_of(le32(input@, 30), le16(input@, 28))->0;
                if bmp::is_rle(c) && bmp::rle_of(input@, c) is Err {
                    result == Err::<Report, Error>(bmp::rle_of(input@, c)->Err_0)
                } else {
                    exists|img: BmpImage|
                        #[trigger] header_of(input@, *options, img) && (rows_decode(img, input@)
                            && img.width * img.output_channels <= usize::MAX ==> result is Ok) && (
                        result is Ok ==> rows_decode(img, input@))
                }
            },
        },
        result matches Ok(report) ==> report.compression == compression_label(options.compression)
            && report.filter == filter_label(options.filter) && report.strategy == "pixel-exact"
            && report.backend == "native-portable" && report.input_bytes == input@.len(),
        result matches Ok(report) ==> exists|img: BmpImage|
            #[trigger] header_of(input@, *options, img) && report.source_top_down == img.top_down
                && report.output_color_type == (if img.output_channels == 4 { "rgba8" } else { "rgb8" })
                && report.source_compression == bmp::compression_label(img.compression)
                && report.source_bits_per_pixel == img.bits_per_pixel && report.palette_entries
                == img.palette@.len() && report.alpha_preserved == (img.output_channels == 4)
                && report.decoded_pixels == img.width * img.height && report.warnings@.map_values(
                |w: String| w@,
            ) == bmp::bmp_warnings(input@, *options, img.masks),
        result matches Ok(report) ==> exists|img: BmpImage|
            #[trigger] header_of(input@, *options, img) && rows_decode(img, input@) && report.width
                == img.width && report.height == img.height && exists|z: Seq<u8>|
                #[trigger] deflated(
                    options.compression,
                    filtered_rows(img, input@, options.filter, img.height as nat),
                    z,
                ) && final(output)@ == old(output)@ + png_file(
                    img,
                    z,
                    options.idat_chunk_size as int,
                ),
{
    if options.idat_chunk_size == 0 {
        return Err(Error::InvalidOptions("idat_chunk_size must be non-zero"));
    }
    if options.idat_chunk_size > 16 * 1024 * 1024 {
        return Err(Error::InvalidOptions("idat_chunk_size exceeds 16 MiB"));
    }
    if options.max_pixels == 0 {
        return Err(Error::InvalidOptions("max_pixels must be non-zero"));
    }
    let image = match bmp::inspect(input, options) {
        Ok(i) => i,
        Err(e) => return Err(e),
    };
    let mut bytes = match encode(input, &image, options) {
        Ok(b) => b,
        Err(e) => return Err(e),
    };
    assert(image.width as int * image.output_channels as int <= 0x7FFF_FFFF * 4) by (nonlinear_arith)
        requires
            image.width <= 0x7FFF_FFFF,
            image.output_channels <= 4,
    ;
    assert(image.width as int * image.height as int <= 0x7FFF_FFFF * 0x8000_0000) by (nonlinear_arith)
        requires
            image.width <= 0x7FFF_FFFF,
            image.height <= 0x8000_0000,
    ;
    let row_bytes = image.width as u64 * image.output_channels as u64;
    let filter_memory = row_bytes * 3 + options.idat_chunk_size as u64;
    let rle_memory: u64 = match &image.rle_pixels {
        Some(p) => p.len() as u64,
        None => 0,
    };
    let output_bytes = bytes.len() as u64;
    let ghost appended = bytes@;
    output.append(&mut bytes);
    Ok(
        Report {
            input_bytes: image.file_size,
            output_bytes,
            width: image.width,
            height: image.height,
            source_bits_per_pixel: image.bits_per_pixel,
            source_compression: image.compression.name(),
            source_top_down: image.top_down,
            palette_entries: image.palette.len() as u32,
            output_color_type: if image.output_channels == 4 { "rgba8" } else { "rgb8" },
            alpha_preserved: image.output_channels == 4,
            decoded_pixels: image.width as u64 * image.height as u64,
            peak_working_memory_bytes: filter_memory.saturating_add(rle_memory),
            filter: filter_name(options.filter),
            compression: compression_name(options.compression),
            strategy: "pixel-exact",
            backend: "native-portable",
            warnings: image.warnings,
        },
    )
}

} // verus!
